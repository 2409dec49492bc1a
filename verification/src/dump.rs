//! Rendering of a flattened forest as an indented, glyph-annotated text
//! dump, one line per record.
//!
//! A scene header (depth 0) is its name, marked when it is the document's
//! default scene.  A node line carries a branch glyph chosen by its
//! connector, indented under its scene; continuation bars are drawn for
//! every ancestor that still has later siblings, remembered per depth from
//! the most recent shallower lines.

use vstd::prelude::*;
use vstd::string::StrSliceExecFns;

use crate::scene_tree::{NodeInfo, NodeKind};
use crate::spec_tree::FlatRecord;
use crate::tree::{Flattened, LevelInfo};

verus! {

/// The continuation segment drawn under a connector: a bar while later
/// siblings follow, blank space once the row is closed.
pub open spec fn seg_of(lv: LevelInfo) -> Seq<char> {
    if lv is FirstChild || lv is Sibling {
        "│   "@
    } else {
        "    "@
    }
}

/// The branch glyph of a connector: a tee while later siblings follow, an
/// elbow on the last of a row.
pub open spec fn glyph_of(lv: LevelInfo) -> Seq<char> {
    if lv is FirstChild || lv is Sibling {
        "├── "@
    } else {
        "└── "@
    }
}

/// The name printed for a record: its own, or a placeholder by its kind.
pub open spec fn name_of(r: FlatRecord<NodeInfo>) -> Seq<char> {
    match r.item.name {
        Some(s) => s@,
        None => match r.item.kind_info {
            NodeKind::Scene { is_default: _ } => "<unnamed scene>"@,
            NodeKind::Node => "<unnamed node>"@,
        },
    }
}

/// The marker appended to the default scene's header.
pub open spec fn suffix_of(r: FlatRecord<NodeInfo>) -> Seq<char> {
    match r.item.kind_info {
        NodeKind::Scene { is_default } => if is_default {
            " [default]"@
        } else {
            Seq::empty()
        },
        NodeKind::Node => Seq::empty(),
    }
}

/// The continuation segments for the ancestors at depths `d..k`.
pub open spec fn prefix_from(anc: Seq<LevelInfo>, d: int, k: int) -> Seq<char>
    decreases k - d,
{
    if d >= k {
        Seq::empty()
    } else {
        (if 0 <= d < anc.len() {
            seg_of(anc[d])
        } else {
            "    "@
        }) + prefix_from(anc, d + 1, k)
    }
}

/// One line of the dump, given the connectors most recently seen per
/// depth.
pub open spec fn line_of(r: FlatRecord<NodeInfo>, anc: Seq<LevelInfo>) -> Seq<char> {
    let k = r.level.spec_level() as int;
    if k == 0 {
        name_of(r) + suffix_of(r) + seq!['\n']
    } else if k == 1 {
        glyph_of(r.level) + name_of(r) + seq!['\n']
    } else {
        "    "@ + prefix_from(anc, 2, k) + glyph_of(r.level) + name_of(r) + seq!['\n']
    }
}

/// The per-depth connector memory after a record: entries deeper than the
/// record are discarded and its own connector remembered at its depth.
pub open spec fn next_anc(anc: Seq<LevelInfo>, r: FlatRecord<NodeInfo>) -> Seq<LevelInfo> {
    let k = r.level.spec_level() as int;
    (if k <= anc.len() {
        anc.take(k)
    } else {
        anc
    }).push(r.level)
}

/// The dump of the records `rs[i..]`, carrying the connector memory.
pub open spec fn dump_from(rs: Seq<FlatRecord<NodeInfo>>, i: int, anc: Seq<LevelInfo>) -> Seq<char>
    decreases rs.len() - i,
{
    if i < 0 || i >= rs.len() {
        Seq::empty()
    } else {
        line_of(rs[i], anc) + dump_from(rs, i + 1, next_anc(anc, rs[i]))
    }
}

/// The whole dump: every record's line, in order.
pub open spec fn dump_of(rs: Seq<FlatRecord<NodeInfo>>) -> Seq<char> {
    dump_from(rs, 0, Seq::empty())
}

/// Append the characters of `s` to `out`.
pub fn push_chars(out: &mut Vec<char>, s: &str)
    ensures
        final(out)@ == old(out)@ + s@,
{
    let ghost base = old(out)@;
    let len = s.unicode_len();
    let mut j: usize = 0;
    while j < len
        invariant
            j <= len,
            len == s@.len(),
            out@ == base + s@.take(j as int),
        decreases len - j,
    {
        let c = s.get_char(j);
        out.push(c);
        proof {
            assert(base + s@.take(j + 1) =~= (base + s@.take(j as int)).push(s@[j as int]));
        }
        j = j + 1;
    }
    proof {
        assert(s@.take(len as int) =~= s@);
        assert(out@ == base + s@);
    }
}

/// Render the flattened output as its text dump.
pub fn render_dump(flat: &Flattened<NodeInfo<'_>>) -> (out: Vec<char>)
    requires
        flat.wf(),
    ensures
        out@ == dump_of(flat.records()),
{
    let ghost rs = flat.records();
    let mut out: Vec<char> = Vec::new();
    let mut anc: Vec<LevelInfo> = Vec::new();
    let n = flat.items.len();
    let mut i: usize = 0;
    while i < n
        invariant
            i <= n,
            n == rs.len(),
            rs == flat.records(),
            flat.wf(),
            dump_of(rs) == out@ + dump_from(rs, i as int, anc@),
        decreases n - i,
    {
        let ghost a0 = out@;
        let ghost anc0 = anc@;
        let ghost r = rs[i as int];
        let lv = flat.levels[i];
        let k = lv.level();
        proof {
            assert(r.level == lv);
            assert(r.item == flat.items@[i as int]);
        }
        if k >= 2 {
            push_chars(&mut out, "    ");
            let mut d: usize = 2;
            while d < k
                invariant
                    2 <= d <= k,
                    k == r.level.spec_level(),
                    out@ == a0 + "    "@ + prefix_from(anc0, 2, d as int),
                    anc@ == anc0,
                decreases k - d,
            {
                let ghost before = out@;
                if d < anc.len() {
                    let seg = anc[d];
                    if matches!(seg, LevelInfo::FirstChild(_) | LevelInfo::Sibling(_)) {
                        push_chars(&mut out, "│   ");
                    } else {
                        push_chars(&mut out, "    ");
                    }
                    proof {
                        assert(out@ == before + seg_of(anc0[d as int]));
                    }
                } else {
                    push_chars(&mut out, "    ");
                }
                proof {
                    assert(prefix_from(anc0, 2, d + 1) =~= prefix_from(anc0, 2, d as int) + (
                    if 0 <= d < anc0.len() {
                        seg_of(anc0[d as int])
                    } else {
                        "    "@
                    })) by {
                        lemma_prefix_snoc(anc0, 2, d as int);
                    }
                    assert(out@ =~= a0 + "    "@ + prefix_from(anc0, 2, d + 1));
                }
                d = d + 1;
            }
        }
        if k >= 1 {
            if matches!(lv, LevelInfo::FirstChild(_) | LevelInfo::Sibling(_)) {
                push_chars(&mut out, "├── ");
            } else {
                push_chars(&mut out, "└── ");
            }
        }
        match flat.items[i].name {
            Some(s) => push_chars(&mut out, s),
            None => match flat.items[i].kind_info {
                NodeKind::Scene { is_default: _ } => push_chars(&mut out, "<unnamed scene>"),
                NodeKind::Node => push_chars(&mut out, "<unnamed node>"),
            },
        }
        if k == 0 {
            match flat.items[i].kind_info {
                NodeKind::Scene { is_default } => {
                    if is_default {
                        push_chars(&mut out, " [default]");
                    }
                },
                NodeKind::Node => {},
            }
        }
        out.push('\n');
        proof {
            if k == 0 {
                assert(out@ =~= a0 + line_of(r, anc0));
            } else if k == 1 {
                assert(out@ =~= a0 + line_of(r, anc0));
            } else {
                assert(out@ =~= a0 + line_of(r, anc0));
            }
        }
        let klen = if k <= anc.len() {
            k
        } else {
            anc.len()
        };
        anc.truncate(klen);
        anc.push(lv);
        proof {
            assert(anc@ =~= next_anc(anc0, r));
            assert(dump_from(rs, i as int, anc0) == line_of(r, anc0) + dump_from(
                rs,
                i + 1,
                next_anc(anc0, r),
            ));
            assert(a0 + (line_of(r, anc0) + dump_from(rs, i + 1, anc@)) =~= (a0 + line_of(
                r,
                anc0,
            )) + dump_from(rs, i + 1, anc@));
        }
        i = i + 1;
    }
    proof {
        assert(dump_from(rs, n as int, anc@) =~= Seq::<char>::empty());
        assert(out@ + Seq::<char>::empty() =~= out@);
    }
    out
}

/// A prefix of continuation segments grows at its right edge.
proof fn lemma_prefix_snoc(anc: Seq<LevelInfo>, d: int, e: int)
    requires
        d <= e,
    ensures
        prefix_from(anc, d, e + 1) == prefix_from(anc, d, e) + (
        if 0 <= e < anc.len() {
            seg_of(anc[e])
        } else {
            "    "@
        }),
    decreases e - d,
{
    if d == e {
        assert(prefix_from(anc, e + 1, e + 1) =~= Seq::<char>::empty());
        assert(prefix_from(anc, d, e) =~= Seq::<char>::empty());
        assert(prefix_from(anc, d, e + 1) =~= (
        if 0 <= e < anc.len() {
            seg_of(anc[e])
        } else {
            "    "@
        }) + Seq::<char>::empty());
        assert(prefix_from(anc, d, e) + (
        if 0 <= e < anc.len() {
            seg_of(anc[e])
        } else {
            "    "@
        }) =~= (
        if 0 <= e < anc.len() {
            seg_of(anc[e])
        } else {
            "    "@
        }));
    } else {
        lemma_prefix_snoc(anc, d + 1, e);
        assert(prefix_from(anc, d, e + 1) =~= prefix_from(anc, d, e) + (
        if 0 <= e < anc.len() {
            seg_of(anc[e])
        } else {
            "    "@
        }));
    }
}

} // verus!

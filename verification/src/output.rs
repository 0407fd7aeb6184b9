//! Output rendering: pair records are serialized as `source,homophone`, one
//! record per line; single records are the bare word and need no rendering.
//! Writing the rendered lines to their destination is the caller's part.

use vstd::prelude::*;
use vstd::string::StringExecFns;

verus! {

/// The output line of one pair: the source word and the homophone joined by
/// a single comma. Embedded commas are not escaped.
pub open spec fn pair_line(p: (Seq<char>, Seq<char>)) -> Seq<char> {
    p.0 + seq![','] + p.1
}

/// Renders the pair collection into its output lines, one line per pair, in
/// order. An empty collection yields no lines.
pub fn render_pair_lines(pairs: &Vec<(String, String)>) -> (lines: Vec<String>)
    ensures
        lines.deep_view() == pairs.deep_view().map_values(|p: (Seq<char>, Seq<char>)| pair_line(p)),
{
    let ghost ps = pairs.deep_view();
    let ghost goal = ps.map_values(|p: (Seq<char>, Seq<char>)| pair_line(p));
    let mut lines: Vec<String> = Vec::new();
    let mut i: usize = 0;
    proof {
        assert(lines.deep_view() =~= goal.take(0));
    }
    while i < pairs.len()
        invariant
            i <= pairs.len(),
            ps == pairs.deep_view(),
            goal == ps.map_values(|p: (Seq<char>, Seq<char>)| pair_line(p)),
            lines.deep_view() == goal.take(i as int),
        decreases pairs.len() - i,
    {
        let mut line = pairs[i].0.clone();
        line.append(",");
        line.append(pairs[i].1.as_str());
        proof {
            assert(","@ =~= seq![',']) by {
                reveal_strlit(",");
            }
            assert((pairs@[i as int].0@, pairs@[i as int].1@) == ps[i as int]);
            assert(line@ == goal[i as int]);
        }
        let ghost l0 = lines@;
        let ghost dv_pre = lines.deep_view();
        let ghost lv = line@;
        proof {
            assert(dv_pre.len() == l0.len());
            assert(forall|k: int| 0 <= k < l0.len() ==> #[trigger] dv_pre[k] == l0[k]@);
        }
        lines.push(line);
        proof {
            assert(lines@ == l0.push(lines@[l0.len() as int]));
            assert(lines@[l0.len() as int]@ == lv);
            assert forall|k: int| 0 <= k < lines.deep_view().len()
                implies lines.deep_view()[k] == goal.take(i as int + 1)[k] by {
                assert(lines.deep_view()[k] == lines@[k]@);
                if k < l0.len() {
                    assert(lines@[k] == l0[k]);
                    assert(dv_pre[k] == goal.take(i as int)[k]);
                }
            }
            assert(lines.deep_view() =~= goal.take(i as int + 1));
        }
        i += 1;
    }
    proof {
        assert(goal.take(pairs@.len() as int) =~= goal);
    }
    lines
}

} // verus!

use vstd::prelude::*;

use vstd::string::StringExecFns;

verus! {

/// The joined form of a list of strings: the first stands alone, and every
/// later one follows a blank and ends with a newline and a tab.
pub open spec fn join_spec(ws: Seq<Seq<char>>) -> Seq<char>
    decreases ws.len(),
{
    if ws.len() == 0 {
        Seq::empty()
    } else if ws.len() == 1 {
        ws[0]
    } else {
        join_spec(ws.drop_last()) + seq![' '] + ws.last() + seq!['\n', '\t']
    }
}

/// Renders a list of strings as one string, each entry after the first on
/// its own indented line.
pub fn vec_to_string(vec: &Vec<String>) -> (r: String)
    ensures
        r@ == join_spec(vec@.map(|k: int, w: String| w@)),
{
    let ghost views = vec@.map(|k: int, w: String| w@);
    let n: usize = vec.len();
    if n == 0 {
        let r = String::new();
        proof {
            assert(views.len() == 0);
        }
        return r;
    }
    let mut acc: String = vec[0].clone();
    proof {
        assert(acc@ == views[0]);
        assert(views.subrange(0, 1).len() == 1);
        assert(acc@ == join_spec(views.subrange(0, 1))) by {
            assert(views.subrange(0, 1)[0] == views[0]);
        }
        reveal_strlit(" ");
        reveal_strlit("\n\t");
        assert(" "@ =~= seq![' ']);
        assert("\n\t"@ =~= seq!['\n', '\t']);
    }
    let mut i: usize = 1;
    while i < n
        invariant
            n == vec@.len(),
            1 <= i <= n,
            views == vec@.map(|k: int, w: String| w@),
            " "@ == seq![' '],
            "\n\t"@ == seq!['\n', '\t'],
            acc@ == join_spec(views.subrange(0, i as int)),
        decreases n - i,
    {
        let acc2 = acc.concat(" ");
        let acc3 = acc2.concat(vec[i].as_str());
        acc = acc3.concat("\n\t");
        proof {
            let pre = views.subrange(0, i + 1);
            assert(pre.drop_last() =~= views.subrange(0, i as int));
            assert(pre.last() == views[i as int]);
            assert(views[i as int] == vec@[i as int]@);
            assert(acc@ =~= join_spec(views.subrange(0, i as int)) + seq![' ']
                + views[i as int] + seq!['\n', '\t']);
        }
        i = i + 1;
    }
    proof {
        assert(views.subrange(0, n as int) =~= views);
    }
    acc
}

} // verus!

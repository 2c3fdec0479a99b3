//! Shaping a saved evaluation for the report.
use vstd::prelude::*;
use crate::factor::strings_view;
use crate::frame::str_eq;

verus! {

/// The distinct names among `values`, nulls skipped, in order of first appearance.
pub open spec fn distinct_names(values: Seq<Option<Seq<char>>>) -> Seq<Seq<char>>
    decreases values.len(),
{
    if values.len() == 0 {
        Seq::empty()
    } else {
        let before = distinct_names(values.drop_last());
        match values.last() {
            None => before,
            Some(s) => if before.contains(s) {
                before
            } else {
                before.push(s)
            },
        }
    }
}

/// The views of optional strings.
pub open spec fn options_view(v: Seq<Option<String>>) -> Seq<Option<Seq<char>>> {
    v.map_values(|o: Option<String>| match o {
        Some(s) => Some(s@),
        None => None,
    })
}

/// The distinct factor names of a summary column, in row order.
pub fn distinct_factor_names(values: &Vec<Option<String>>) -> (r: Vec<String>)
    ensures
        strings_view(r@) == distinct_names(options_view(values@)),
{
    let ghost vs = options_view(values@);
    let mut out: Vec<String> = Vec::new();
    let mut i: usize = 0;
    proof {
        assert(vs.take(0) =~= Seq::<Option<Seq<char>>>::empty());
        assert(strings_view(out@) =~= Seq::<Seq<char>>::empty());
    }
    while i < values.len()
        invariant
            vs == options_view(values@),
            i <= values.len(),
            strings_view(out@) == distinct_names(vs.take(i as int)),
        decreases values.len() - i,
    {
        proof {
            assert(vs.take(i + 1).drop_last() =~= vs.take(i as int));
            assert(vs.take(i + 1).last() == vs[i as int]);
        }
        match &values[i] {
            None => {},
            Some(s) => {
                let mut seen = false;
                let mut j: usize = 0;
                while j < out.len()
                    invariant
                        j <= out.len(),
                        !seen ==> forall|k: int| 0 <= k < j ==> #[trigger] out@[k]@ != s@,
                        seen ==> strings_view(out@).contains(s@),
                    decreases out.len() - j,
                {
                    if str_eq(out[j].as_str(), s.as_str()) {
                        proof {
                            assert(strings_view(out@)[j as int] == s@);
                        }
                        seen = true;
                    }
                    j = j + 1;
                }
                proof {
                    if !seen && strings_view(out@).contains(s@) {
                        let k = choose|k: int| 0 <= k < out.len() && strings_view(out@)[k] == s@;
                        assert(out@[k]@ == s@);
                    }
                }
                if !seen {
                    let ghost before = out@;
                    out.push(s.clone());
                    proof {
                        assert(strings_view(out@) =~= strings_view(before).push(s@));
                    }
                }
            },
        }
        i = i + 1;
    }
    proof {
        assert(vs.take(values.len() as int) =~= vs);
    }
    out
}

} // verus!

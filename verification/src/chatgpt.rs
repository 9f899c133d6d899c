//! The request handed to the external description generator: the
//! professor's paper titles joined into one text body.  The remote call
//! itself, its prompt and its transport live with the caller; the store
//! only fixes what is sent and how the outcome is recorded.
use vstd::prelude::*;

use vstd::string::StringExecFns;

verus! {

pub open spec fn joined_tail(ts: Seq<Seq<char>>) -> Seq<char>
    decreases ts.len(),
{
    if ts.len() == 0 {
        Seq::empty()
    } else {
        seq!['\n'] + ts[0] + joined_tail(ts.drop_first())
    }
}

/// The titles joined with single newlines, in list order.
pub open spec fn spec_joined(ts: Seq<Seq<char>>) -> Seq<char> {
    if ts.len() == 0 {
        Seq::empty()
    } else {
        ts[0] + joined_tail(ts.drop_first())
    }
}

/// The body of one generation request.
pub struct ModelRequest(pub String);

impl ModelRequest {
    /// Builds the request body: the paper titles, newline-joined.
    pub fn from_titles(titles: &Vec<String>) -> (r: ModelRequest)
        ensures
            r.0@ == spec_joined(titles@.map_values(|t: String| t@)),
    {
        let ghost ts = titles@.map_values(|t: String| t@);
        let mut out = String::new();
        let n = titles.len();
        if n == 0 {
            proof {
                assert(out@ =~= spec_joined(ts));
            }
            return ModelRequest(out);
        }
        out.append(titles[0].as_str());
        proof {
            assert(ts.drop_first() =~= ts.skip(1));
            assert(spec_joined(ts) =~= out@ + joined_tail(ts.skip(1)));
        }
        let mut i: usize = 1;
        while i < n
            invariant
                n == titles@.len(),
                ts == titles@.map_values(|t: String| t@),
                1 <= i <= n,
                spec_joined(ts) == out@ + joined_tail(ts.skip(i as int)),
            decreases n - i,
        {
            out.append("\n");
            out.append(titles[i].as_str());
            proof {
                reveal_strlit("\n");
                assert("\n"@ =~= seq!['\n']);
                assert(ts.skip(i as int)[0] == ts[i as int]);
                assert(ts.skip(i as int).drop_first() =~= ts.skip(i + 1));
                assert(spec_joined(ts) =~= out@ + joined_tail(ts.skip(i + 1)));
            }
            i = i + 1;
        }
        proof {
            assert(ts.skip(n as int) =~= Seq::<Seq<char>>::empty());
            assert(out@ =~= spec_joined(ts));
        }
        ModelRequest(out)
    }
}

} // verus!

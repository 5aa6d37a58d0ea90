use vstd::prelude::*;

verus! {

/// Whether a character may stand as it is in an HTML id.
pub open spec fn is_id_safe(c: char) -> bool {
    ('a' <= c && c <= 'z') || ('A' <= c && c <= 'Z') || ('0' <= c && c <= '9')
}

/// The character that stands for `c` in an HTML id.
pub open spec fn id_safe_char(c: char) -> char {
    if is_id_safe(c) {
        c
    } else {
        '_'
    }
}

/// Relies on `String::push`: appends one character at the end.
#[verifier::external_body]
pub(crate) fn push_char(s: &mut String, c: char)
    ensures
        final(s)@ == old(s)@.push(c),
{
    s.push(c)
}

/// A song as seen in the voting view: its score over all voters and the
/// decision of the voter who asks, if any.
#[derive(Clone, Debug)]
pub struct Candidate {
    pub id: String,
    pub name: String,
    pub score: i128,
    pub voter_decision: Option<i64>,
}

/// What a candidate is, as the contracts see it.
pub struct CandidateView {
    pub id: Seq<char>,
    pub name: Seq<char>,
    pub score: int,
    pub voter_decision: Option<int>,
}

impl View for Candidate {
    type V = CandidateView;

    open spec fn view(&self) -> CandidateView {
        CandidateView {
            id: self.id@,
            name: self.name@,
            score: self.score as int,
            voter_decision: match self.voter_decision {
                Some(d) => Some(d as int),
                None => None,
            },
        }
    }
}

impl Candidate {
    /// The id with every character outside `[a-zA-Z0-9]` replaced by `_`.
    pub fn html_id_suffix(&self) -> (r: String)
        ensures
            r@ == self.id@.map_values(|c: char| id_safe_char(c)),
    {
        let ids: &str = self.id.as_str();
        let n = ids.unicode_len();
        let mut out = String::new();
        let mut i: usize = 0;
        while i < n
            invariant
                n == self.id@.len(),
                ids@ == self.id@,
                i <= n,
                out@ == self.id@.subrange(0, i as int).map_values(|c: char| id_safe_char(c)),
            decreases n - i,
        {
            let c = ids.get_char(i);
            let d = if ('a' <= c && c <= 'z') || ('A' <= c && c <= 'Z') || ('0' <= c && c <= '9') {
                c
            } else {
                '_'
            };
            push_char(&mut out, d);
            i = i + 1;
            assert(out@ =~= self.id@.subrange(0, i as int).map_values(|c: char| id_safe_char(c)));
        }
        assert(self.id@.subrange(0, n as int) =~= self.id@);
        out
    }
}

} // verus!

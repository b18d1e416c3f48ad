use vstd::prelude::*;
use vstd::string::StrSliceExecFns;
use vstd::string::StringExecFns;

verus! {

/// `s` with every trailing newline or carriage-return character removed.
pub open spec fn trim_eol_spec(s: Seq<char>) -> Seq<char>
    decreases s.len(),
{
    if s.len() > 0 && (s.last() == '\n' || s.last() == '\r') {
        trim_eol_spec(s.drop_last())
    } else {
        s
    }
}

/// Removes every trailing end-of-line character (`'\n'` or `'\r'`) from
/// `string`, in place.
pub fn trim_eol(string: &mut String)
    ensures
        final(string)@ == trim_eol_spec(old(string)@),
{
    let ghost s = old(string)@;
    let cs = crate::matcher::chars_of(string.as_str());
    proof {
        assert(s.take(cs@.len() as int) =~= s);
    }
    let mut k: usize = cs.len();
    while k > 0 && (cs[k - 1] == '\n' || cs[k - 1] == '\r')
        invariant
            k <= cs@.len(),
            cs@ == s,
            trim_eol_spec(s.take(k as int)) == trim_eol_spec(s),
        decreases k,
    {
        proof {
            assert(s.take(k as int).last() == s[k as int - 1]);
            assert(s.take(k as int).drop_last() =~= s.take(k as int - 1));
        }
        k = k - 1;
    }
    proof {
        if k > 0 {
            assert(s.take(k as int).last() == s[k as int - 1]);
        }
        assert(trim_eol_spec(s.take(k as int)) == s.take(k as int));
    }
    let trimmed = string.as_str().substring_char(0, k);
    let result = String::from_str(trimmed);
    *string = result;
}

} // verus!

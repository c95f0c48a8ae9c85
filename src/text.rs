use vstd::prelude::*;

verus! {

/// The characters of `s`, in order.
pub fn chars_of(s: &str) -> (r: Vec<char>)
    ensures
        r@ == s@,
{
    let mut out: Vec<char> = Vec::new();
    proof {
        vstd::string::axiom_spec_iter(s);
    }
    for c in it: s.chars()
        invariant
            out@ == it.seq().take(it.index() as int),
            it.seq() == s@,
    {
        out.push(c);
    }
    assert(out@ =~= s@);
    out
}

/// Relies on `String::from_iter` over `&char`: the string holds the given
/// characters, in order.
#[verifier::external_body]
pub(crate) fn string_of(chars: &[char]) -> (r: String)
    ensures
        r@ == chars@,
{
    String::from_iter(chars.iter())
}

/// Appends `log[start..end]` to `out`.
pub fn push_span(out: &mut Vec<char>, log: &Vec<char>, start: usize, end: usize)
    requires
        start <= end <= log@.len(),
    ensures
        final(out)@ == old(out)@ + log@.subrange(start as int, end as int),
{
    let mut k: usize = start;
    while k < end
        invariant
            start <= k <= end <= log@.len(),
            out@ == old(out)@ + log@.subrange(start as int, k as int),
        decreases end - k,
    {
        out.push(log[k]);
        k = k + 1;
        assert(out@ =~= old(out)@ + log@.subrange(start as int, k as int));
    }
}

/// Appends all of `chars` to `log`.
pub fn push_all(log: &mut Vec<char>, chars: &Vec<char>)
    ensures
        final(log)@ == old(log)@ + chars@,
{
    let mut k: usize = 0;
    while k < chars.len()
        invariant
            k <= chars@.len(),
            log@ == old(log)@ + chars@.subrange(0, k as int),
        decreases chars@.len() - k,
    {
        log.push(chars[k]);
        k = k + 1;
        assert(log@ =~= old(log)@ + chars@.subrange(0, k as int));
    }
    assert(chars@.subrange(0, chars@.len() as int) =~= chars@);
}

} // verus!

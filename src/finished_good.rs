//! Finished-good codes and the routing-step marker at their end.
use vstd::prelude::*;

verus! {

pub open spec fn is_digit(c: char) -> bool {
    '0' <= c && c <= '9'
}

pub open spec fn digit_value(c: char) -> nat {
    ((c as u32) - ('0' as u32)) as nat
}

/// Characters that separate tokens in a list of requested finished goods.
pub open spec fn is_separator(c: char) -> bool {
    c == ' ' || c == '\t' || c == '\n' || c == '\r' || c == ','
}

/// A token names a finished good when it is non-empty and holds no separator.
pub open spec fn valid_code(s: Seq<char>) -> bool {
    s.len() > 0 && forall|i: int| 0 <= i < s.len() ==> !is_separator(#[trigger] s[i])
}

/// How many decimal digits stand at the end of `s`.
pub open spec fn trailing_digits(s: Seq<char>) -> nat
    decreases s.len(),
{
    if s.len() > 0 && is_digit(s.last()) {
        trailing_digits(s.drop_last()) + 1
    } else {
        0
    }
}

/// The number that a string of decimal digits writes.
pub open spec fn digits_value(s: Seq<char>) -> nat
    decreases s.len(),
{
    if s.len() == 0 {
        0
    } else {
        digits_value(s.drop_last()) * 10 + digit_value(s.last())
    }
}

/// `s` is `base-N`: a non-empty base, a dash, and one or more digits.
pub open spec fn has_step_marker(s: Seq<char>) -> bool {
    let t = trailing_digits(s);
    t > 0 && s.len() >= t + 2 && s[s.len() - t - 1] == '-'
}

pub open spec fn step_digits(s: Seq<char>) -> Seq<char> {
    s.subrange(s.len() - trailing_digits(s), s.len() as int)
}

/// The routing step that a code denotes, if any: the number after its step
/// marker, when that number fits in 64 bits.
pub open spec fn step_of(s: Seq<char>) -> Option<nat> {
    if has_step_marker(s) && digits_value(step_digits(s)) <= u64::MAX {
        Some(digits_value(step_digits(s)))
    } else {
        None
    }
}

/// A finished good, identified by its full code (`"ABC"`, or `"ABC-2"` for
/// step 2 of the multi-step good `ABC`).
#[derive(Debug)]
pub struct FinishedGood {
    pub code: String,
}

impl View for FinishedGood {
    type V = Seq<char>;

    open spec fn view(&self) -> Seq<char> {
        self.code@
    }
}

impl PartialEq for FinishedGood {
    fn eq(&self, o: &FinishedGood) -> (r: bool) {
        self.code == o.code
    }
}

impl vstd::std_specs::cmp::PartialEqSpecImpl for FinishedGood {
    open spec fn obeys_eq_spec() -> bool {
        true
    }

    open spec fn eq_spec(&self, o: &FinishedGood) -> bool {
        self@ == o@
    }
}

impl Eq for FinishedGood {
}

impl Clone for FinishedGood {
    fn clone(&self) -> (r: FinishedGood)
        ensures
            r@ == self@,
    {
        FinishedGood { code: self.code.clone() }
    }
}

proof fn lemma_trailing_digits_bound(s: Seq<char>)
    ensures
        trailing_digits(s) <= s.len(),
        forall|i: int|
            s.len() - trailing_digits(s) <= i < s.len() ==> is_digit(#[trigger] s[i]),
        trailing_digits(s) < s.len() ==> !is_digit(s[s.len() - trailing_digits(s) - 1]),
    decreases s.len(),
{
    if s.len() > 0 && is_digit(s.last()) {
        lemma_trailing_digits_bound(s.drop_last());
        assert forall|i: int|
            s.len() - trailing_digits(s) <= i < s.len() implies is_digit(#[trigger] s[i]) by {
            if i < s.len() - 1 {
                assert(s[i] == s.drop_last()[i]);
            }
        }
        if trailing_digits(s) < s.len() {
            assert(s[s.len() - trailing_digits(s) - 1] == s.drop_last()[s.len()
                - trailing_digits(s) - 1]);
        }
    }
}

proof fn lemma_trailing_digits_exact(s: Seq<char>, k: int)
    requires
        0 <= k <= s.len(),
        forall|i: int| k <= i < s.len() ==> is_digit(#[trigger] s[i]),
        k == 0 || !is_digit(s[k - 1]),
    ensures
        trailing_digits(s) == s.len() - k,
    decreases s.len(),
{
    if s.len() > k {
        assert(is_digit(s[s.len() - 1]));
        let d = s.drop_last();
        assert forall|i: int| k <= i < d.len() implies is_digit(#[trigger] d[i]) by {
            assert(d[i] == s[i]);
        }
        if k > 0 {
            assert(d[k - 1] == s[k - 1]);
        }
        lemma_trailing_digits_exact(d, k);
    } else if s.len() > 0 {
        assert(s.last() == s[k - 1]);
    }
}

proof fn lemma_digits_value_grows(s: Seq<char>, i: int, j: int)
    requires
        0 <= i <= j <= s.len(),
    ensures
        digits_value(s.subrange(0, i)) <= digits_value(s.subrange(0, j)),
    decreases j - i,
{
    if i < j {
        lemma_digits_value_grows(s, i, j - 1);
        assert(s.subrange(0, j).drop_last() == s.subrange(0, j - 1));
    }
}

/// Reads the digits `s[from..]` as a number, or `None` when it exceeds 64 bits.
fn read_number(s: &str, from: usize, len: usize) -> (r: Option<u64>)
    requires
        len == s@.len(),
        from <= len,
        forall|i: int| from <= i < len ==> is_digit(#[trigger] s@[i]),
    ensures
        match r {
            Some(v) => v == digits_value(s@.subrange(from as int, len as int)),
            None => digits_value(s@.subrange(from as int, len as int)) > u64::MAX,
        },
{
    let ghost d = s@.subrange(from as int, len as int);
    let mut acc: u64 = 0;
    let mut i: usize = from;
    while i < len
        invariant
            from <= i <= len,
            len == s@.len(),
            d == s@.subrange(from as int, len as int),
            forall|k: int| from <= k < len ==> is_digit(#[trigger] s@[k]),
            acc == digits_value(d.subrange(0, i - from)),
        decreases len - i,
    {
        let c = s.get_char(i);
        assert(is_digit(s@[i as int]));
        let dv: u64 = ((c as u32) - ('0' as u32)) as u64;
        assert(d.subrange(0, i - from + 1).drop_last() == d.subrange(0, i - from));
        assert(d.subrange(0, i - from + 1).last() == c);
        if acc > (u64::MAX - dv) / 10 {
            proof {
                lemma_digits_value_grows(d, i - from + 1, d.len() as int);
                assert(d.subrange(0, d.len() as int) == d);
            }
            return None;
        }
        acc = acc * 10 + dv;
        i = i + 1;
    }
    assert(d.subrange(0, d.len() as int) == d);
    Some(acc)
}

impl FinishedGood {
    /// Reads a finished good from a token; `None` for an empty token or one
    /// that holds a separator.
    pub fn parse(text: &str) -> (r: Option<FinishedGood>)
        ensures
            r.is_some() == valid_code(text@),
            r.is_some() ==> r.unwrap()@ == text@,
    {
        let n = text.unicode_len();
        if n == 0 {
            return None;
        }
        let mut i: usize = 0;
        while i < n
            invariant
                n == text@.len(),
                i <= n,
                forall|k: int| 0 <= k < i ==> !is_separator(#[trigger] text@[k]),
            decreases n - i,
        {
            let c = text.get_char(i);
            if c == ' ' || c == '\t' || c == '\n' || c == '\r' || c == ',' {
                return None;
            }
            i = i + 1;
        }
        Some(FinishedGood { code: text.to_owned() })
    }

    /// The routing step that this finished good denotes, if it is one.
    pub fn step(&self) -> (r: Option<u64>)
        ensures
            match r {
                Some(v) => step_of(self@) == Some(v as nat),
                None => step_of(self@).is_none(),
            },
    {
        let s = self.code.as_str();
        let n = s.unicode_len();
        let mut k: usize = n;
        let mut done = false;
        while k > 0 && !done
            invariant
                n == s@.len(),
                s@ == self@,
                k <= n,
                forall|i: int| k <= i < n ==> is_digit(#[trigger] s@[i]),
                done ==> k > 0 && !is_digit(s@[k - 1]),
            decreases k, if done { 0int } else { 1int },
        {
            let c = s.get_char(k - 1);
            if '0' <= c && c <= '9' {
                k = k - 1;
            } else {
                done = true;
            }
        }
        proof {
            lemma_trailing_digits_exact(s@, k as int);
        }
        if k == n || k < 2 {
            return None;
        }
        if s.get_char(k - 1) != '-' {
            return None;
        }
        read_number(s, k, n)
    }

    /// Whether this finished good denotes a routing step.
    pub fn is_step(&self) -> (r: bool)
        ensures
            r == step_of(self@).is_some(),
    {
        self.step().is_some()
    }

    /// Whether this finished good denotes routing step `n`.
    pub fn is_step_number(&self, n: u64) -> (r: bool)
        ensures
            r == (step_of(self@) == Some(n as nat)),
    {
        match self.step() {
            Some(v) => v == n,
            None => false,
        }
    }
}

} // verus!

//! The language tag grammar and the preference-header parser.
//!
//! A segment has the shape `<code>[-<region>][;q=<quality>]`: `code` and
//! `region` are maximal runs of word characters, and `quality` is a decimal
//! number. The parser is lenient: it starts at the first word character and
//! ignores trailing content it does not understand. A header is a
//! comma-separated list of segments; segments that fail to parse are dropped.

use vstd::prelude::*;

verus! {

broadcast use vstd::seq::group_seq_axioms, vstd::seq_lib::group_seq_lib_default;

/// Characters the tag grammar treats as word characters: ASCII letters,
/// ASCII digits, and the underscore.
pub open spec fn is_word_char(c: char) -> bool {
    ||| 'a' <= c && c <= 'z'
    ||| 'A' <= c && c <= 'Z'
    ||| '0' <= c && c <= '9'
    ||| c == '_'
}

/// ASCII decimal digits.
pub open spec fn is_digit_char(c: char) -> bool {
    '0' <= c && c <= '9'
}

/// The numeric value of an ASCII digit.
pub open spec fn digit_of(c: char) -> nat {
    (c as int - '0' as int) as nat
}

/// Length of the run of word characters starting at `i`.
pub open spec fn word_run(s: Seq<char>, i: int) -> nat
    decreases s.len() - i,
{
    if 0 <= i < s.len() && is_word_char(s[i]) {
        1 + word_run(s, i + 1)
    } else {
        0
    }
}

/// Length of the run of digit characters starting at `i`.
pub open spec fn digit_run(s: Seq<char>, i: int) -> nat
    decreases s.len() - i,
{
    if 0 <= i < s.len() && is_digit_char(s[i]) {
        1 + digit_run(s, i + 1)
    } else {
        0
    }
}

/// Length of the run of non-comma characters starting at `i`.
pub open spec fn sep_run(s: Seq<char>, i: int) -> nat
    decreases s.len() - i,
{
    if 0 <= i < s.len() && s[i] != ',' {
        1 + sep_run(s, i + 1)
    } else {
        0
    }
}

/// First index at or after `i` holding a word character; the length of `s`
/// if there is none.
pub open spec fn word_start(s: Seq<char>, i: int) -> int
    decreases s.len() - i,
{
    if 0 <= i < s.len() && !is_word_char(s[i]) {
        word_start(s, i + 1)
    } else {
        i
    }
}

/// Value of a string of decimal digits, most significant first.
pub open spec fn digits_val(s: Seq<char>) -> nat
    decreases s.len(),
{
    if s.len() == 0 {
        0
    } else {
        digits_val(s.drop_last()) * 10 + digit_of(s.last())
    }
}

/// The digit string with its trailing zeros removed.
pub open spec fn strip_zeros(f: Seq<char>) -> Seq<char>
    decreases f.len(),
{
    if f.len() > 0 && f.last() == '0' {
        strip_zeros(f.drop_last())
    } else {
        f
    }
}

/// Powers of ten.
pub open spec fn pow10(n: nat) -> nat
    decreases n,
{
    if n == 0 {
        1
    } else {
        10 * pow10((n - 1) as nat)
    }
}

/// The quality weight denoted by an integer part and a fraction part, as an
/// exact fraction `num / den` with `den` the power of ten matching the
/// fraction's length after trailing zeros are dropped.
///
/// A weight that lies outside `[0, 1]`, or whose fraction needs more than 19
/// significant digits, is no usable preference and is read as zero.
pub open spec fn quality_of(ipart: Seq<char>, fpart: Seq<char>) -> (nat, nat) {
    let f = strip_zeros(fpart);
    let den = pow10(f.len());
    let num = digits_val(ipart) * den + digits_val(f);
    if f.len() > 19 || num > den {
        (0nat, 1nat)
    } else {
        (num, den)
    }
}

/// The decimal number at position `p`: digits, optionally split by one dot.
/// A missing number means the quality clause carries no usable value and is
/// read as zero.
pub open spec fn number_at(s: Seq<char>, p: int) -> (nat, nat) {
    let a = digit_run(s, p) as int;
    if p + a < s.len() && s[p + a] == '.' && digit_run(s, p + a + 1) > 0 {
        let b = digit_run(s, p + a + 1) as int;
        quality_of(s.subrange(p, p + a), s.subrange(p + a + 1, p + a + 1 + b))
    } else if a > 0 {
        quality_of(s.subrange(p, p + a), Seq::empty())
    } else {
        (0nat, 1nat)
    }
}

/// The quality clause at position `p`: a literal `;q=` followed by a decimal
/// number. An absent clause means full preference.
pub open spec fn quality_at(s: Seq<char>, p: int) -> (nat, nat) {
    if p + 3 <= s.len() && s[p] == ';' && s[p + 1] == 'q' && s[p + 2] == '=' {
        number_at(s, p + 3)
    } else {
        (1nat, 1nat)
    }
}

/// The model of one parsed language descriptor.
pub ghost struct LangModel {
    pub code: Seq<char>,
    pub region: Option<Seq<char>>,
    pub q_num: nat,
    pub q_den: nat,
}

/// The descriptor denoted by a segment whose code starts at `cs`.
pub open spec fn parse_at(s: Seq<char>, cs: int) -> LangModel {
    let ce = cs + word_run(s, cs);
    if ce < s.len() && s[ce] == '-' {
        let rlen = word_run(s, ce + 1) as int;
        let region: Option<Seq<char>> = if rlen > 0 {
            Some(s.subrange(ce + 1, ce + 1 + rlen))
        } else {
            None
        };
        let q = quality_at(s, ce + 1 + rlen);
        LangModel { code: s.subrange(cs, ce), region, q_num: q.0, q_den: q.1 }
    } else {
        let q = quality_at(s, ce);
        LangModel { code: s.subrange(cs, ce), region: None, q_num: q.0, q_den: q.1 }
    }
}

/// The descriptor denoted by one segment: the code is the first word run,
/// an immediately following `-` introduces the region, and an immediately
/// following `;q=` introduces the quality. A segment without any word
/// character denotes nothing.
pub open spec fn parse_segment_spec(s: Seq<char>) -> Option<LangModel> {
    let cs = word_start(s, 0);
    if cs >= s.len() {
        None
    } else {
        Some(parse_at(s, cs))
    }
}

/// The descriptors denoted by the header pieces from position `p` on.
pub open spec fn parse_header_from(s: Seq<char>, p: int) -> Seq<LangModel>
    decreases s.len() - p,
{
    let e = p + sep_run(s, p);
    let first = match parse_segment_spec(s.subrange(p, e)) {
        Some(l) => seq![l],
        None => Seq::<LangModel>::empty(),
    };
    if e >= s.len() {
        first
    } else {
        first + parse_header_from(s, e + 1)
    }
}

/// The descriptors denoted by a whole preference header: its comma-separated
/// pieces in order, each piece that parses contributing one descriptor.
pub open spec fn parse_header_spec(s: Seq<char>) -> Seq<LangModel> {
    parse_header_from(s, 0)
}

/// A word run reaches exactly to the first non-word character.
proof fn lemma_word_run_is(s: Seq<char>, i: int, j: int)
    requires
        0 <= i <= j <= s.len(),
        forall|l: int| i <= l < j ==> is_word_char(s[l]),
        j < s.len() ==> !is_word_char(s[j]),
    ensures
        word_run(s, i) == j - i,
    decreases j - i,
{
    if i < j {
        lemma_word_run_is(s, i + 1, j);
    }
}

/// A digit run reaches exactly to the first non-digit character.
proof fn lemma_digit_run_is(s: Seq<char>, i: int, j: int)
    requires
        0 <= i <= j <= s.len(),
        forall|l: int| i <= l < j ==> is_digit_char(s[l]),
        j < s.len() ==> !is_digit_char(s[j]),
    ensures
        digit_run(s, i) == j - i,
    decreases j - i,
{
    if i < j {
        lemma_digit_run_is(s, i + 1, j);
    }
}

/// A piece reaches exactly to the first comma.
proof fn lemma_sep_run_is(s: Seq<char>, i: int, j: int)
    requires
        0 <= i <= j <= s.len(),
        forall|l: int| i <= l < j ==> s[l] != ',',
        j < s.len() ==> s[j] == ',',
    ensures
        sep_run(s, i) == j - i,
    decreases j - i,
{
    if i < j {
        lemma_sep_run_is(s, i + 1, j);
    }
}

/// `word_start` names the first word character at or after `i`.
proof fn lemma_word_start_is(s: Seq<char>, i: int, j: int)
    requires
        0 <= i <= j <= s.len(),
        forall|l: int| i <= l < j ==> !is_word_char(s[l]),
        j < s.len() ==> is_word_char(s[j]),
    ensures
        word_start(s, i) == j,
    decreases j - i,
{
    if i < j {
        lemma_word_start_is(s, i + 1, j);
    }
}

/// A leading zero does not change a digit string's value.
proof fn lemma_digits_leading_zero(s: Seq<char>)
    requires
        s.len() > 0,
        s[0] == '0',
    ensures
        digits_val(s) == digits_val(s.drop_first()),
    decreases s.len(),
{
    if s.len() == 1 {
        assert(s.drop_last() =~= s.drop_first());
    } else {
        lemma_digits_leading_zero(s.drop_last());
        assert(s.drop_last().drop_first() =~= s.drop_first().drop_last());
        assert(s.drop_first().last() == s.last());
    }
}

/// A digit string that does not start with zero is worth at least ten to the
/// power of one less than its length.
proof fn lemma_digits_lower(s: Seq<char>)
    requires
        s.len() >= 1,
        forall|l: int| 0 <= l < s.len() ==> is_digit_char(s[l]),
        s[0] != '0',
    ensures
        digits_val(s) >= pow10((s.len() - 1) as nat),
    decreases s.len(),
{
    if s.len() == 1 {
        assert(s.drop_last() =~= Seq::<char>::empty());
    } else {
        lemma_digits_lower(s.drop_last());
    }
}

/// Powers of ten grow with the exponent.
proof fn lemma_pow10_mono(a: nat, b: nat)
    requires
        a <= b,
    ensures
        pow10(a) <= pow10(b),
    decreases b,
{
    if a < b {
        lemma_pow10_mono(a, (b - 1) as nat);
        lemma_pow10_pos((b - 1) as nat);
    }
}

/// Powers of ten are positive.
proof fn lemma_pow10_pos(n: nat)
    ensures
        pow10(n) >= 1,
    decreases n,
{
    if n > 0 {
        lemma_pow10_pos((n - 1) as nat);
    }
}

/// A parse error: the segment holds no word character at all, so not even a
/// language code could be read from it.
#[derive(Clone, Copy, Debug, PartialEq, Eq)]
pub enum ParseError {
    Malformed,
}

/// A quality weight in `[0, 1]`, kept as the exact fraction `num / den`
/// with `den` a power of ten.
#[derive(Clone, Copy, Debug)]
pub struct Quality {
    pub num: u64,
    pub den: u64,
}

impl Quality {
    /// The fraction is well formed and lies in `[0, 1]`.
    pub open spec fn wf(self) -> bool {
        1 <= self.den && self.num <= self.den
    }
}

/// One negotiated language preference: the primary code as it stood in the
/// segment, an optional region, and a quality weight.
#[derive(Clone, Debug)]
pub struct Language {
    pub code: String,
    pub region: Option<String>,
    pub quality: Quality,
}

impl View for Language {
    type V = LangModel;

    open spec fn view(&self) -> LangModel {
        LangModel {
            code: self.code@,
            region: match self.region {
                Some(r) => Some(r@),
                None => None,
            },
            q_num: self.quality.num as nat,
            q_den: self.quality.den as nat,
        }
    }
}

/// Executable test for a word character of the tag grammar.
fn word_char(c: char) -> (r: bool)
    ensures
        r == is_word_char(c),
{
    ('a' <= c && c <= 'z') || ('A' <= c && c <= 'Z') || ('0' <= c && c <= '9') || c == '_'
}

/// Executable test for an ASCII digit.
fn digit_char(c: char) -> (r: bool)
    ensures
        r == is_digit_char(c),
{
    '0' <= c && c <= '9'
}

/// Relies on `String::push`: it appends exactly the given character.
#[verifier::external_body]
fn push_char(s: &mut String, c: char)
    ensures
        final(s)@ == old(s)@.push(c),
{
    s.push(c);
}

/// The characters of a string, in order, as a vector.
fn chars_of(s: &str) -> (r: Vec<char>)
    ensures
        r@ == s@,
{
    let mut out: Vec<char> = Vec::new();
    for c in it: s.chars()
        invariant
            it.seq() == s@,
            out@ == it.seq().take(it.index() as int),
    {
        out.push(c);
    }
    proof {
        assert(out@ =~= s@);
    }
    out
}

/// The substring of `chars` between `start` and `end`, as an owned string.
#[verifier::loop_isolation(false)]
fn string_from_chars(chars: &Vec<char>, start: usize, end: usize) -> (r: String)
    requires
        start <= end <= chars@.len(),
    ensures
        r@ == chars@.subrange(start as int, end as int),
{
    let mut out = String::new();
    let mut i: usize = start;
    while i < end
        invariant
            start <= i <= end,
            out@ == chars@.subrange(start as int, i as int),
        decreases end - i,
    {
        push_char(&mut out, chars[i]);
        proof {
            assert(chars@.subrange(start as int, i + 1) =~= chars@.subrange(
                start as int,
                i as int,
            ).push(chars@[i as int]));
        }
        i = i + 1;
    }
    out
}

/// End of the run of word characters starting at `from`.
#[verifier::loop_isolation(false)]
fn scan_word_end(chars: &Vec<char>, from: usize) -> (r: usize)
    requires
        from <= chars@.len(),
    ensures
        from <= r <= chars@.len(),
        r as int == from + word_run(chars@, from as int),
        forall|l: int| from <= l < r ==> is_word_char(chars@[l]),
{
    let mut i: usize = from;
    while i < chars.len() && word_char(chars[i])
        invariant
            from <= i <= chars@.len(),
            forall|l: int| from <= l < i ==> is_word_char(chars@[l]),
        decreases chars@.len() - i,
    {
        i = i + 1;
    }
    proof {
        lemma_word_run_is(chars@, from as int, i as int);
    }
    i
}

/// End of the run of digit characters starting at `from`.
#[verifier::loop_isolation(false)]
fn scan_digit_end(chars: &Vec<char>, from: usize) -> (r: usize)
    requires
        from <= chars@.len(),
    ensures
        from <= r <= chars@.len(),
        r as int == from + digit_run(chars@, from as int),
        forall|l: int| from <= l < r ==> is_digit_char(chars@[l]),
{
    let mut i: usize = from;
    while i < chars.len() && digit_char(chars[i])
        invariant
            from <= i <= chars@.len(),
            forall|l: int| from <= l < i ==> is_digit_char(chars@[l]),
        decreases chars@.len() - i,
    {
        i = i + 1;
    }
    proof {
        lemma_digit_run_is(chars@, from as int, i as int);
    }
    i
}

/// The largest exponent a power of ten fits under `u64`.
const MAX_FRAC_DIGITS: usize = 19;

/// Ten to the power `n`, for exponents a `u64` can hold.
#[verifier::loop_isolation(false)]
fn pow10_u64(n: usize) -> (r: u64)
    requires
        n <= 19,
    ensures
        r as nat == pow10(n as nat),
{
    proof {
        lemma_pow10_19();
    }
    let mut r: u64 = 1;
    let mut j: usize = 0;
    while j < n
        invariant
            0 <= j <= n,
            r as nat == pow10(j as nat),
        decreases n - j,
    {
        proof {
            lemma_pow10_mono((j + 1) as nat, 19nat);
        }
        r = r * 10;
        j = j + 1;
    }
    r
}

/// Ten to the nineteenth power, written out.
proof fn lemma_pow10_19()
    ensures
        pow10(19nat) == 10000000000000000000,
{
    reveal_with_fuel(pow10, 20);
}

/// The value of the digits of `chars` between `from` and `to`, at most 19 of
/// them.
#[verifier::loop_isolation(false)]
fn digits_value(chars: &Vec<char>, from: usize, to: usize) -> (r: u64)
    requires
        from <= to <= chars@.len(),
        to - from <= 19,
        forall|l: int| from <= l < to ==> is_digit_char(chars@[l]),
    ensures
        r as nat == digits_val(chars@.subrange(from as int, to as int)),
        (r as nat) < pow10((to - from) as nat),
{
    proof {
        lemma_pow10_19();
    }
    let mut r: u64 = 0;
    let mut j: usize = from;
    while j < to
        invariant
            from <= j <= to,
            r as nat == digits_val(chars@.subrange(from as int, j as int)),
            (r as nat) < pow10((j - from) as nat),
        decreases to - j,
    {
        proof {
            lemma_pow10_mono((j + 1 - from) as nat, 19nat);
            assert(chars@.subrange(from as int, j + 1).drop_last() =~= chars@.subrange(
                from as int,
                j as int,
            ));
            assert(chars@.subrange(from as int, j + 1).last() == chars@[j as int]);
        }
        let d = (chars[j] as u32 - 48) as u64;
        r = r * 10 + d;
        j = j + 1;
    }
    r
}

/// The quality fraction read from an integer digit range and a fraction
/// digit range of `chars`.
#[verifier::loop_isolation(false)]
fn quality_from_parts(chars: &Vec<char>, is: usize, ie: usize, fs: usize, fe: usize) -> (q: Quality)
    requires
        is <= ie <= chars@.len(),
        fs <= fe <= chars@.len(),
        forall|l: int| is <= l < ie ==> is_digit_char(chars@[l]),
        forall|l: int| fs <= l < fe ==> is_digit_char(chars@[l]),
    ensures
        q.wf(),
        (q.num as nat, q.den as nat) == quality_of(
            chars@.subrange(is as int, ie as int),
            chars@.subrange(fs as int, fe as int),
        ),
{
    let ghost ipart = chars@.subrange(is as int, ie as int);
    let ghost fpart = chars@.subrange(fs as int, fe as int);

    // Drop trailing zeros of the fraction.
    let mut fe2: usize = fe;
    while fe2 > fs && chars[fe2 - 1] == '0'
        invariant
            fs <= fe2 <= fe,
            strip_zeros(fpart) == strip_zeros(chars@.subrange(fs as int, fe2 as int)),
        decreases fe2 - fs,
    {
        proof {
            assert(chars@.subrange(fs as int, fe2 as int).drop_last() =~= chars@.subrange(
                fs as int,
                fe2 - 1,
            ));
        }
        fe2 = fe2 - 1;
    }
    let ghost f = strip_zeros(fpart);
    proof {
        assert(f =~= chars@.subrange(fs as int, fe2 as int));
    }
    if fe2 - fs > MAX_FRAC_DIGITS {
        return Quality { num: 0, den: 1 };
    }
    let den = pow10_u64(fe2 - fs);
    let fv = digits_value(chars, fs, fe2);

    // Skip leading zeros of the integer part.
    let mut z: usize = is;
    while z < ie && chars[z] == '0'
        invariant
            is <= z <= ie,
            digits_val(ipart) == digits_val(chars@.subrange(z as int, ie as int)),
        decreases ie - z,
    {
        proof {
            lemma_digits_leading_zero(chars@.subrange(z as int, ie as int));
            assert(chars@.subrange(z as int, ie as int).drop_first() =~= chars@.subrange(
                z + 1,
                ie as int,
            ));
        }
        z = z + 1;
    }
    let ghost sig = chars@.subrange(z as int, ie as int);
    proof {
        lemma_pow10_pos((fe2 - fs) as nat);
    }
    if z == ie {
        // The integer part is worth zero: the weight is the fraction itself.
        proof {
            assert(sig =~= Seq::<char>::empty());
            assert(digits_val(ipart) == 0);
        }
        Quality { num: fv, den }
    } else if ie - z == 1 && chars[z] == '1' {
        proof {
            assert(sig.drop_last() =~= Seq::<char>::empty());
            assert(sig.last() == '1');
            assert(digits_val(Seq::<char>::empty()) == 0);
            assert(digits_val(sig) == digit_of('1'));
            assert(digit_of('1') == 1);
            assert(digits_val(ipart) == 1);
        }
        if fe2 > fs {
            // Strictly above one: no usable weight.
            proof {
                assert(f.last() != '0' && is_digit_char(f.last()));
                assert(digits_val(f) >= 1);
            }
            Quality { num: 0, den: 1 }
        } else {
            // Exactly one.
            Quality { num: 1, den: 1 }
        }
    } else {
        // The integer part is worth at least two: no usable weight.
        proof {
            assert(chars@[z as int] != '0' && is_digit_char(chars@[z as int]));
            if ie - z == 1 {
                assert(sig.drop_last() =~= Seq::<char>::empty());
                assert(digits_val(Seq::<char>::empty()) == 0);
                assert(digits_val(sig) == digit_of(sig.last()));
                assert(digit_of(sig.last()) >= 2);
            } else {
                lemma_digits_lower(sig);
                lemma_pow10_mono(1nat, (sig.len() - 1) as nat);
                assert(pow10(1nat) == 10) by {
                    reveal_with_fuel(pow10, 2);
                }
            }
            assert(digits_val(ipart) >= 2);
            assert(digits_val(ipart) * pow10(f.len()) >= 2 * pow10(f.len()))
                by (nonlinear_arith)
                requires
                    digits_val(ipart) >= 2,
                    pow10(f.len()) >= 1,
            ;
        }
        Quality { num: 0, den: 1 }
    }
}

/// The quality fraction of the decimal number at `p`, or zero when no number
/// stands there.
#[verifier::loop_isolation(false)]
fn parse_number(chars: &Vec<char>, p: usize) -> (q: Quality)
    requires
        p <= chars@.len(),
    ensures
        q.wf(),
        (q.num as nat, q.den as nat) == number_at(chars@, p as int),
{
    let n = chars.len();
    let a_end = scan_digit_end(chars, p);
    if a_end < n && chars[a_end] == '.' {
        let f_end = scan_digit_end(chars, a_end + 1);
        if f_end > a_end + 1 {
            return quality_from_parts(chars, p, a_end, a_end + 1, f_end);
        }
    }
    if a_end > p {
        let q = quality_from_parts(chars, p, a_end, p, p);
        proof {
            assert(chars@.subrange(p as int, p as int) =~= Seq::<char>::empty());
        }
        q
    } else {
        Quality { num: 0, den: 1 }
    }
}

/// The descriptor of the segment held in `chars`, if any.
#[verifier::loop_isolation(false)]
fn parse_chars(chars: &Vec<char>) -> (r: Option<Language>)
    ensures
        match r {
            Some(l) => parse_segment_spec(chars@) == Some(l@) && l.quality.wf() && l@.code.len()
                >= 1,
            None => parse_segment_spec(chars@) is None,
        },
{
    let n = chars.len();

    // Find the first word character: the code starts there.
    let mut cs: usize = 0;
    while cs < n && !word_char(chars[cs])
        invariant
            cs <= n,
            forall|l: int| 0 <= l < cs ==> !is_word_char(chars@[l]),
        decreases n - cs,
    {
        cs = cs + 1;
    }
    proof {
        lemma_word_start_is(chars@, 0, cs as int);
    }
    if cs == n {
        return None;
    }
    let ce = scan_word_end(chars, cs);
    let code = string_from_chars(chars, cs, ce);

    let mut region: Option<String> = None;
    let mut pos: usize = ce;
    if ce < n && chars[ce] == '-' {
        let re = scan_word_end(chars, ce + 1);
        if re > ce + 1 {
            region = Some(string_from_chars(chars, ce + 1, re));
        }
        pos = re;
    }

    let quality = if n - pos >= 3 && chars[pos] == ';' && chars[pos + 1] == 'q' && chars[pos + 2]
        == '=' {
        parse_number(chars, pos + 3)
    } else {
        Quality { num: 1, den: 1 }
    };
    Some(Language { code, region, quality })
}

impl Language {
    /// Parse one `Accept-Language` segment, such as `en-US` or `de;q=0.5`.
    ///
    /// A segment without a single word character yields the parse error;
    /// any other segment yields the descriptor its leading grammar match
    /// denotes, whatever trails it. A parsed code is never empty, and the
    /// quality always lies in `[0, 1]`.
    pub fn from(segment: &str) -> (r: Result<Language, ParseError>)
        ensures
            match r {
                Ok(l) => parse_segment_spec(segment@) == Some(l@) && l.quality.wf() && l@.code.len()
                    >= 1,
                Err(e) => parse_segment_spec(segment@) is None && e == ParseError::Malformed,
            },
    {
        let chars = chars_of(segment);
        match parse_chars(&chars) {
            Some(l) => Ok(l),
            None => Err(ParseError::Malformed),
        }
    }
}

/// The models of a sequence of descriptors.
pub open spec fn lang_views(s: Seq<Language>) -> Seq<LangModel> {
    s.map_values(|l: Language| l@)
}

/// Parse the value of an `Accept-Language` header, such as
/// `en-US,en;q=0.7,de-DE;q=0.3`.
///
/// The header splits at commas; every piece that parses contributes one
/// descriptor, in header order, and the rest are dropped. The list is not
/// re-sorted: a caller who wants quality order sorts it itself.
#[verifier::loop_isolation(false)]
pub fn parse_accept_language(header: &str) -> (r: Vec<Language>)
    ensures
        lang_views(r@) == parse_header_spec(header@),
        forall|i: int| 0 <= i < r@.len() ==> (#[trigger] r@[i]).quality.wf(),
{
    let chars = chars_of(header);
    let ghost s = chars@;
    let n = chars.len();
    let mut out: Vec<Language> = Vec::new();
    let mut p: usize = 0;
    let mut finished = false;
    while !finished
        invariant
            p <= n,
            finished ==> lang_views(out@) == parse_header_spec(s),
            !finished ==> lang_views(out@) + parse_header_from(s, p as int) == parse_header_spec(
                s,
            ),
            forall|i: int| 0 <= i < out@.len() ==> (#[trigger] out@[i]).quality.wf(),
        decreases n - p, (if finished { 0int } else { 1int }),
    {
        // Find the end of this piece: the next comma or the end.
        let mut e: usize = p;
        while e < n && chars[e] != ','
            invariant
                p <= e <= n,
                forall|l: int| p <= l < e ==> s[l] != ',',
            decreases n - e,
        {
            e = e + 1;
        }
        proof {
            lemma_sep_run_is(s, p as int, e as int);
        }
        let mut piece: Vec<char> = Vec::new();
        let mut i: usize = p;
        while i < e
            invariant
                p <= i <= e <= n,
                piece@ == s.subrange(p as int, i as int),
            decreases e - i,
        {
            piece.push(chars[i]);
            proof {
                assert(s.subrange(p as int, i + 1) =~= s.subrange(p as int, i as int).push(
                    s[i as int],
                ));
            }
            i = i + 1;
        }
        let ghost before = out@;
        match parse_chars(&piece) {
            Some(l) => {
                out.push(l);
                proof {
                    assert(lang_views(out@) =~= lang_views(before).push(l@));
                }
            },
            None => {},
        }
        if e == n {
            finished = true;
        } else {
            p = e + 1;
        }
    }
    out
}

} // verus!

use vstd::prelude::*;

verus! {

/// The number of distinct values the payload field of a runtime pointer can
/// hold: the word is 32 bits wide and the low four bits carry the tag.
pub const PTR_PAYLOAD_CAPACITY: u64 = 0x1000_0000;

/// An identifier. The parser only builds names whose length fits the
/// base-64 packing into a runtime pointer payload (see `spec_max_name_len`).
#[derive(Clone, Debug, PartialEq, Eq, Hash)]
pub struct Name(pub String);

impl View for Name {
    type V = Seq<char>;

    open spec fn view(&self) -> Seq<char> {
        self.0@
    }
}

/// The key of a definition in the book: a name, packed base-64 into the
/// payload field of a runtime pointer word.
#[derive(Clone, Copy, Debug, PartialEq, Eq, Hash, Structural)]
pub struct DefId(pub u32);

/// The base-64 digit of one name character: `0-9` map to 0..=9, `A-Z` to
/// 10..=35, `a-z` to 36..=61, `_` to 62 and `.` to 63. Any other character
/// is not part of the name alphabet and maps to 64.
pub open spec fn char_letter(c: char) -> int {
    let u = c as int;
    if 48 <= u && u <= 57 {
        u - 48
    } else if 65 <= u && u <= 90 {
        u - 55
    } else if 97 <= u && u <= 122 {
        u - 61
    } else if u == 95 {
        62
    } else if u == 46 {
        63
    } else {
        64
    }
}

/// The character of one base-64 digit; inverse of `char_letter` on the
/// name alphabet.
pub open spec fn letter_char(l: int) -> char {
    if 0 <= l && l <= 9 {
        ((l + 48) as u8) as char
    } else if 10 <= l && l <= 35 {
        ((l + 55) as u8) as char
    } else if 36 <= l && l <= 61 {
        ((l + 61) as u8) as char
    } else if l == 62 {
        ('_')
    } else {
        ('.')
    }
}

/// Every character of `s` belongs to the name alphabet.
pub open spec fn valid_name_seq(s: Seq<char>) -> bool {
    forall|i: int| 0 <= i < s.len() ==> #[trigger] char_letter(s[i]) != 64
}

/// A character that may start a name: `_` or a letter.
pub open spec fn is_name_start(c: char) -> bool {
    let u = c as int;
    u == 95 || (65 <= u && u <= 90) || (97 <= u && u <= 122)
}

/// A character that may continue a name: a name start or a digit.
pub open spec fn is_name_char(c: char) -> bool {
    is_name_start(c) || (48 <= c as int && c as int <= 57)
}

/// A well-formed identifier: nonempty, starting with `_` or a letter,
/// continuing with name characters only.
pub open spec fn name_seq_wf(s: Seq<char>) -> bool {
    &&& s.len() > 0
    &&& is_name_start(s[0])
    &&& forall|i: int| 0 <= i < s.len() ==> #[trigger] is_name_char(s[i])
}

/// A well-formed identifier stays in the base-64 alphabet and its leading
/// digit is not zero, so it survives the pack/unpack round trip.
pub proof fn lemma_name_wf_valid(s: Seq<char>)
    requires
        name_seq_wf(s),
    ensures
        valid_name_seq(s),
        char_letter(s[0]) != 0,
{
    assert forall|i: int| 0 <= i < s.len() implies #[trigger] char_letter(s[i]) != 64 by {
        assert(is_name_char(s[i]));
    }
}

/// 64 to the power `n`.
pub open spec fn pow64(n: nat) -> int
    decreases n,
{
    if n == 0 {
        1
    } else {
        64 * pow64((n - 1) as nat)
    }
}

proof fn lemma_val_bound(s: Seq<char>)
    requires
        valid_name_seq(s),
    ensures
        0 <= spec_name_to_val(s) < pow64(s.len()),
    decreases s.len(),
{
    if s.len() > 0 {
        let d = s.drop_last();
        assert forall|i: int| 0 <= i < d.len() implies #[trigger] char_letter(d[i]) != 64 by {
            assert(d[i] == s[i]);
        }
        lemma_val_bound(d);
        assert(char_letter(s.last()) != 64);
        assert(0 <= char_letter(s.last()) < 64);
        assert(spec_name_to_val(d) * 64 <= (pow64(d.len()) - 1) * 64);
    }
}

/// A name of at most five characters packs into 32 bits.
pub proof fn lemma_name_val_fits(s: Seq<char>)
    requires
        valid_name_seq(s),
        s.len() <= 5,
    ensures
        0 <= spec_name_to_val(s) <= u32::MAX as int,
{
    lemma_val_bound(s);
    reveal_with_fuel(pow64, 7);
    assert(pow64(5) == 0x4000_0000);
    assert(pow64(s.len()) <= 0x4000_0000);
}

/// The value a name packs to: its base-64 digits read left to right.
pub open spec fn spec_name_to_val(s: Seq<char>) -> int
    decreases s.len(),
{
    if s.len() == 0 {
        0
    } else {
        spec_name_to_val(s.drop_last()) * 64 + char_letter(s.last())
    }
}

/// The name a value unpacks to: base-64 digits of `v`, most significant
/// first, with no leading zero digit.
pub open spec fn spec_val_to_name(v: int) -> Seq<char>
    decreases v when v >= 0
{
    if v <= 0 {
        Seq::empty()
    } else {
        spec_val_to_name(v / 64).push(letter_char(v % 64))
    }
}

/// floor(log64(n)): how often `n` can be divided by 64 before falling
/// below 64.
pub open spec fn log64(n: int) -> int
    decreases n when n >= 0
{
    if n < 64 {
        0
    } else {
        1 + log64(n / 64)
    }
}

/// The longest representable name: floor(log64) of the pointer payload
/// capacity.
pub open spec fn spec_max_name_len() -> int {
    log64(PTR_PAYLOAD_CAPACITY as int)
}

proof fn lemma_log64_nonneg(n: int)
    requires
        n >= 0,
    ensures
        log64(n) >= 0,
    decreases n,
{
    if n >= 64 {
        lemma_log64_nonneg(n / 64);
    }
}

/// Relies on hvmc::run::Ptr::new and Ptr::val: `new` shifts the payload
/// above the four tag bits of a 32-bit word and `val` recovers it, so the
/// payload field distinguishes exactly 2^28 values.
#[verifier::external_body]
fn ptr_payload_capacity() -> (r: u64)
    ensures
        r == PTR_PAYLOAD_CAPACITY,
{
    (hvmc::run::Ptr::new(0, hvmc::run::Val::MAX).val() as u64) + 1
}

/// The longest name the runtime pointer encoding can carry, computed from
/// the pointer payload capacity of the runtime.
pub fn max_name_len() -> (r: usize)
    ensures
        r as int == spec_max_name_len(),
{
    let cap = ptr_payload_capacity();
    let mut c: u64 = cap;
    let mut n: usize = 0;
    proof {
        reveal_with_fuel(log64, 8);
        assert(log64(PTR_PAYLOAD_CAPACITY as int) == 4);
    }
    while c >= 64
        invariant
            n as int + log64(c as int) == log64(PTR_PAYLOAD_CAPACITY as int),
            log64(c as int) >= 0,
            log64(PTR_PAYLOAD_CAPACITY as int) == 4,
            n <= 4,
        decreases c,
    {
        c = c / 64;
        n = n + 1;
        proof {
            lemma_log64_nonneg(c as int);
        }
    }
    n
}

/// Relies on hvmc::ast::name_to_val: folds the base-64 digits of the
/// name's characters into a 32-bit value, most significant first. It panics
/// on characters outside the name alphabet and can overflow past 32 bits,
/// so both are excluded here.
#[verifier::external_body]
fn hc_name_to_val(s: &str) -> (r: u32)
    requires
        valid_name_seq(s@),
        spec_name_to_val(s@) <= u32::MAX as int,
    ensures
        r as int == spec_name_to_val(s@),
{
    hvmc::ast::name_to_val(s)
}

/// Relies on hvmc::ast::val_to_name: unpacks a value into its base-64
/// digits, most significant first, dropping leading zero digits.
#[verifier::external_body]
fn hc_val_to_name(v: u32) -> (r: String)
    ensures
        r@ == spec_val_to_name(v as int),
{
    hvmc::ast::val_to_name(v)
}

impl DefId {
    /// The definition key a name packs to.
    pub fn from_name(n: &Name) -> (r: DefId)
        requires
            valid_name_seq(n@),
            spec_name_to_val(n@) <= u32::MAX as int,
        ensures
            r.0 as int == spec_name_to_val(n@),
    {
        DefId(hc_name_to_val(n.0.as_str()))
    }
}

impl Name {
    /// The name a definition key unpacks to.
    pub fn from_def_id(id: DefId) -> (r: Name)
        ensures
            r@ == spec_val_to_name(id.0 as int),
    {
        Name(hc_val_to_name(id.0))
    }
}

proof fn lemma_letter_char_inverse(c: char)
    requires
        char_letter(c) != 64,
    ensures
        letter_char(char_letter(c)) == c,
{
}

proof fn lemma_val_pos(s: Seq<char>)
    requires
        s.len() > 0,
        valid_name_seq(s),
        char_letter(s[0]) != 0,
    ensures
        spec_name_to_val(s) >= 1,
    decreases s.len(),
{
    let d = s.drop_last();
    assert forall|i: int| 0 <= i < d.len() implies #[trigger] char_letter(d[i]) != 64 by {
        assert(d[i] == s[i]);
    }
    if s.len() == 1 {
        assert(d.len() == 0);
        assert(spec_name_to_val(d) == 0);
        assert(s.last() == s[0]);
    } else {
        assert(d[0] == s[0]);
        lemma_val_pos(d);
        assert(char_letter(s.last()) != 64);
        assert(char_letter(s.last()) >= 0);
    }
}

/// A name whose characters stay in the alphabet and whose first digit is
/// not zero unpacks from the value it packs to: the name round-trips
/// through its definition key.
pub proof fn lemma_name_round_trip(s: Seq<char>)
    requires
        valid_name_seq(s),
        s.len() > 0 ==> char_letter(s[0]) != 0,
    ensures
        spec_val_to_name(spec_name_to_val(s)) == s,
    decreases s.len(),
{
    if s.len() == 0 {
        assert(spec_val_to_name(spec_name_to_val(s)) =~= s);
    } else {
        let d = s.drop_last();
        let l = char_letter(s.last());
        assert(char_letter(s.last()) != 64);
        assert(0 <= l < 64);
        let vd = spec_name_to_val(d);
        let v = spec_name_to_val(s);
        assert(v == vd * 64 + l);
        if d.len() == 0 {
            assert(vd == 0);
            assert(v == l);
            assert(l != 0);
        } else {
            assert(d[0] == s[0]);
            lemma_val_pos(d);
        }
        assert(vd >= 0) by {
            if d.len() > 0 {
                lemma_val_pos_weak(d);
            }
        }
        assert(v >= 1);
        assert(v / 64 == vd && v % 64 == l) by (nonlinear_arith)
            requires
                v == vd * 64 + l,
                0 <= l < 64,
                vd >= 0,
        {
        }
        lemma_name_round_trip(d);
        lemma_letter_char_inverse(s.last());
        assert(spec_val_to_name(v) == d.push(s.last()));
        assert(d.push(s.last()) =~= s);
    }
}

/// A definition key unpacks to a name in the alphabet that packs back to
/// the same key: decoding then encoding a key is the identity.
pub proof fn lemma_val_round_trip(v: int)
    requires
        0 <= v,
    ensures
        valid_name_seq(spec_val_to_name(v)),
        spec_name_to_val(spec_val_to_name(v)) == v,
    decreases v,
{
    if v <= 0 {
        assert(spec_val_to_name(v) == Seq::<char>::empty());
        assert(valid_name_seq(spec_val_to_name(v)));
    } else {
        lemma_val_round_trip(v / 64);
        let s = spec_val_to_name(v);
        let d = spec_val_to_name(v / 64);
        let l = v % 64;
        assert(s == d.push(letter_char(l)));
        assert(char_letter(letter_char(l)) == l);
        assert(s.drop_last() =~= d);
        assert(s.last() == letter_char(l));
        assert(spec_name_to_val(s) == spec_name_to_val(d) * 64 + l);
        assert forall|i: int| 0 <= i < s.len() implies #[trigger] char_letter(s[i]) != 64 by {
            if i < d.len() {
                assert(s[i] == d[i]);
            } else {
                assert(s[i] == letter_char(l));
            }
        }
    }
}

proof fn lemma_val_pos_weak(s: Seq<char>)
    requires
        valid_name_seq(s),
    ensures
        spec_name_to_val(s) >= 0,
    decreases s.len(),
{
    if s.len() > 0 {
        lemma_val_pos_weak(s.drop_last());
        assert(char_letter(s.last()) != 64);
    }
}

} // verus!

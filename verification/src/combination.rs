//! Parsing of key-combination strings such as `"Ctrl + Shift + X"`.
//!
//! A combination string is split on `'+'`; every segment is trimmed of
//! surrounding whitespace. The last segment names the key, all earlier
//! segments name modifiers from a fixed, case-insensitive alias table.
//! Key names themselves are resolved by the host toolkit's key-naming
//! table, which is outside this library: callers resolve the segment
//! returned by [`key_name`] and hand the result to [`parse`].

use vstd::prelude::*;

verus! {

/// Modifier bit for the Shift key. The bit positions follow the host
/// toolkit's modifier-mask layout, so a raw event mask can be handed to
/// lookup unchanged.
pub const MOD_SHIFT: u32 = 1;

/// Modifier bit for the Control key.
pub const MOD_CONTROL: u32 = 4;

/// Modifier bit shared by the Alt and Super keys: the alias table maps
/// both names to the same bit, so `"Alt+x"` and `"Super+x"` denote the
/// same combination.
pub const MOD_ALT_SUPER: u32 = 16;

/// Union of all recognized modifier bits. Lookup masks a raw event
/// state down to these bits before comparing, so unrelated indicator
/// bits reported by the toolkit cannot spoil a match.
pub const MOD_MASK: u32 = 21;

/// An ASCII whitespace character, as trimmed from combination segments.
pub open spec fn is_space(c: char) -> bool {
    c == ' ' || c == '\t' || c == '\n' || c == '\r'
}

/// `s` with leading and trailing whitespace removed.
pub open spec fn trim_spec(s: Seq<char>) -> Seq<char>
    decreases s.len(),
{
    if s.len() == 0 {
        s
    } else if is_space(s.first()) {
        trim_spec(s.drop_first())
    } else if is_space(s.last()) {
        trim_spec(s.drop_last())
    } else {
        s
    }
}

/// The segments of `s` split on `'+'`. Splitting never yields fewer
/// than one segment: an empty input gives one empty segment.
pub open spec fn split_plus(s: Seq<char>) -> Seq<Seq<char>>
    decreases s.len(),
{
    if s.len() == 0 {
        seq![Seq::<char>::empty()]
    } else if s.first() == '+' {
        seq![Seq::<char>::empty()] + split_plus(s.drop_first())
    } else {
        let rest = split_plus(s.drop_first());
        seq![seq![s.first()] + rest.first()] + rest.drop_first()
    }
}

/// Character equality up to ASCII case.
pub open spec fn char_ieq(a: char, b: char) -> bool {
    if a == b {
        true
    } else if 'A' <= a && a <= 'Z' {
        a as u32 + 32 == b as u32
    } else if 'A' <= b && b <= 'Z' {
        b as u32 + 32 == a as u32
    } else {
        false
    }
}

/// Segment equality up to ASCII case.
pub open spec fn matches_ci(seg: Seq<char>, pat: Seq<char>) -> bool {
    seg.len() == pat.len() && forall|i: int|
        0 <= i < seg.len() ==> #[trigger] char_ieq(seg[i], pat[i])
}

/// The modifier bit a trimmed segment resolves to, if any. Matching is
/// case-insensitive; `"alt"` and `"super"` share one bit.
pub open spec fn mod_bit(seg: Seq<char>) -> Option<u32> {
    if matches_ci(seg, "shift"@) {
        Some(MOD_SHIFT)
    } else if matches_ci(seg, "ctrl"@) {
        Some(MOD_CONTROL)
    } else if matches_ci(seg, "alt"@) || matches_ci(seg, "super"@) {
        Some(MOD_ALT_SUPER)
    } else {
        None
    }
}

/// The modifier segments of a combination string: every segment but the
/// last, trimmed.
pub open spec fn mod_segs(s: Seq<char>) -> Seq<Seq<char>> {
    split_plus(s).drop_last().map_values(|t: Seq<char>| trim_spec(t))
}

/// The key segment of a combination string: the last segment, trimmed.
pub open spec fn key_seg(s: Seq<char>) -> Seq<char> {
    trim_spec(split_plus(s).last())
}

/// Whether some modifier segment of `s` resolves to the bit `b`.
pub open spec fn has_mod(s: Seq<char>, b: u32) -> bool {
    exists|i: int| 0 <= i < mod_segs(s).len() && mod_bit(#[trigger] mod_segs(s)[i]) == Some(b)
}

/// `b` if some modifier segment of `s` resolves to `b`, else `0`.
pub open spec fn mod_val(s: Seq<char>, b: u32) -> u32 {
    if has_mod(s, b) {
        b
    } else {
        0
    }
}

/// The modifier set of `s` as a bitmask: the union of the bits its
/// modifier segments resolve to. Duplicate aliases collapse, and the
/// order of the segments is irrelevant.
pub open spec fn mods_of(s: Seq<char>) -> u32 {
    (mod_val(s, MOD_SHIFT) + mod_val(s, MOD_CONTROL) + mod_val(s, MOD_ALT_SUPER)) as u32
}

/// Whether some modifier segment of `s` resolves to no known modifier.
pub open spec fn has_bad_mod(s: Seq<char>) -> bool {
    exists|i: int| 0 <= i < mod_segs(s).len() && mod_bit(#[trigger] mod_segs(s)[i]) is None
}

/// The rightmost segment that resolves to no known modifier. Modifier
/// segments are checked from the key outwards, so this is the one a
/// failed parse reports.
pub open spec fn first_bad_from_right(segs: Seq<Seq<char>>) -> Seq<char>
    decreases segs.len(),
{
    if segs.len() == 0 {
        Seq::empty()
    } else if mod_bit(segs.last()) is None {
        segs.last()
    } else {
        first_bad_from_right(segs.drop_last())
    }
}

/// Splitting yields at least one segment.
proof fn lemma_split_plus_len(s: Seq<char>)
    ensures
        split_plus(s).len() >= 1,
    decreases s.len(),
{
    if s.len() > 0 {
        lemma_split_plus_len(s.drop_first());
    }
}

/// A string without `'+'` is one single segment.
proof fn lemma_split_plus_no_plus(s: Seq<char>)
    requires
        forall|i: int| 0 <= i < s.len() ==> s[i] != '+',
    ensures
        split_plus(s) == seq![s],
    decreases s.len(),
{
    if s.len() == 0 {
        assert(split_plus(s) =~~= seq![s]);
    } else {
        assert(s[0] != '+');
        lemma_split_plus_no_plus(s.drop_first());
        lemma_split_plus_len(s.drop_first());
        assert(seq![s.first()] + s.drop_first() =~= s);
        assert(split_plus(s) =~~= seq![s]);
    }
}

/// Splitting at the first `'+'`: a `'+'`-free prefix becomes the first
/// segment, the rest is split on its own.
proof fn lemma_split_plus_at(a: Seq<char>, b: Seq<char>)
    requires
        forall|i: int| 0 <= i < a.len() ==> a[i] != '+',
    ensures
        split_plus(a + seq!['+'] + b) == seq![a] + split_plus(b),
    decreases a.len(),
{
    let s = a + seq!['+'] + b;
    lemma_split_plus_len(b);
    if a.len() == 0 {
        assert(s.first() == '+');
        assert(s.drop_first() =~= b);
        assert(split_plus(s) =~~= seq![a] + split_plus(b));
    } else {
        assert(s.first() == a.first());
        assert(s.first() != '+');
        assert(s.drop_first() =~= a.drop_first() + seq!['+'] + b);
        assert(forall|i: int| 0 <= i < a.drop_first().len() ==> a.drop_first()[i] != '+');
        lemma_split_plus_at(a.drop_first(), b);
        let rest = split_plus(s.drop_first());
        assert(rest == seq![a.drop_first()] + split_plus(b));
        assert(rest.first() == a.drop_first());
        assert(seq![s.first()] + rest.first() =~= a);
        assert(rest.drop_first() =~= split_plus(b));
        assert(split_plus(s) =~~= seq![a] + split_plus(b));
    }
}

/// Trimming removes exactly the whitespace bordering the non-space core.
proof fn lemma_trim_bounds(s: Seq<char>, lo: int, hi: int)
    requires
        0 <= lo <= hi <= s.len(),
        forall|i: int| 0 <= i < lo ==> is_space(#[trigger] s[i]),
        forall|i: int| hi <= i < s.len() ==> is_space(#[trigger] s[i]),
        lo == hi || (!is_space(s[lo]) && !is_space(s[hi - 1])),
    ensures
        trim_spec(s) == s.subrange(lo, hi),
    decreases s.len(),
{
    if s.len() == 0 {
        assert(trim_spec(s) =~= s.subrange(lo, hi));
    } else if is_space(s.first()) {
        if lo == hi {
            assert(forall|i: int| 0 <= i < s.drop_first().len() ==> is_space(
                #[trigger] s.drop_first()[i],
            ));
            lemma_trim_bounds(s.drop_first(), 0, 0);
            assert(s.subrange(lo, hi) =~= s.drop_first().subrange(0, 0));
        } else {
            assert(lo >= 1);
            lemma_trim_bounds(s.drop_first(), lo - 1, hi - 1);
            assert(s.drop_first().subrange(lo - 1, hi - 1) =~= s.subrange(lo, hi));
        }
    } else if is_space(s.last()) {
        assert(lo < hi) by {
            if lo == hi {
                assert(is_space(s[0]));
            }
        }
        assert(hi - 1 < s.len() - 1) by {
            if hi == s.len() {
                assert(!is_space(s[hi - 1]));
            }
        }
        lemma_trim_bounds(s.drop_last(), lo, hi);
        assert(s.drop_last().subrange(lo, hi) =~= s.subrange(lo, hi));
    } else {
        assert(lo == 0) by {
            if lo > 0 {
                assert(is_space(s[0]));
            }
        }
        assert(hi == s.len()) by {
            if hi < s.len() {
                assert(is_space(s[s.len() - 1]));
            }
        }
        assert(s.subrange(lo, hi) =~= s);
    }
}

/// The views of a sequence of string slices.
pub open spec fn seg_views(r: Seq<&str>) -> Seq<Seq<char>> {
    r.map_values(|t: &str| t@)
}

fn is_space_exec(c: char) -> (r: bool)
    ensures
        r == is_space(c),
{
    c == ' ' || c == '\t' || c == '\n' || c == '\r'
}

/// `s` with leading and trailing whitespace removed.
pub fn trim_of<'a>(s: &'a str) -> (r: &'a str)
    ensures
        r@ == trim_spec(s@),
{
    let n = s.unicode_len();
    let mut lo: usize = 0;
    while lo < n && is_space_exec(s.get_char(lo))
        invariant
            0 <= lo <= n,
            n == s@.len(),
            forall|i: int| 0 <= i < lo ==> is_space(#[trigger] s@[i]),
        decreases n - lo,
    {
        lo = lo + 1;
    }
    let mut hi: usize = n;
    while hi > lo && is_space_exec(s.get_char(hi - 1))
        invariant
            lo <= hi <= n,
            n == s@.len(),
            forall|i: int| hi <= i < n ==> is_space(#[trigger] s@[i]),
        decreases hi,
    {
        hi = hi - 1;
    }
    let r = s.substring_char(lo, hi);
    proof {
        lemma_trim_bounds(s@, lo as int, hi as int);
    }
    r
}

/// The segments of `s` split on `'+'`, in order.
pub fn split_segments<'a>(s: &'a str) -> (r: Vec<&'a str>)
    ensures
        seg_views(r@) == split_plus(s@),
{
    let n = s.unicode_len();
    let mut r: Vec<&'a str> = Vec::new();
    let mut start: usize = 0;
    let mut i: usize = 0;
    proof {
        assert(s@.subrange(0, n as int) =~= s@);
        assert(split_plus(s@) =~~= seg_views(r@) + split_plus(s@.subrange(0, n as int)));
    }
    while i < n
        invariant
            0 <= start <= i <= n,
            n == s@.len(),
            forall|j: int| start <= j < i ==> s@[j] != '+',
            split_plus(s@) == seg_views(r@) + split_plus(s@.subrange(start as int, n as int)),
        decreases n - i,
    {
        let c = s.get_char(i);
        if c == '+' {
            let seg = s.substring_char(start, i);
            proof {
                let a = s@.subrange(start as int, i as int);
                let b = s@.subrange(i as int + 1, n as int);
                assert(s@.subrange(start as int, n as int) =~= a + seq!['+'] + b);
                lemma_split_plus_at(a, b);
                assert(seg_views(r@.push(seg)) =~~= seg_views(r@) + seq![a]);
                assert(split_plus(s@) =~~= seg_views(r@.push(seg)) + split_plus(b));
            }
            r.push(seg);
            start = i + 1;
        }
        i = i + 1;
    }
    let last = s.substring_char(start, n);
    proof {
        lemma_split_plus_no_plus(s@.subrange(start as int, n as int));
        assert(seg_views(r@.push(last)) =~~= seg_views(r@) + seq![s@.subrange(
            start as int,
            n as int,
        )]);
        assert(seg_views(r@.push(last)) =~~= split_plus(s@));
    }
    r.push(last);
    r
}

fn char_eq_ci(a: char, b: char) -> (r: bool)
    ensures
        r == char_ieq(a, b),
{
    if a == b {
        true
    } else if 'A' <= a && a <= 'Z' {
        a as u32 + 32 == b as u32
    } else if 'A' <= b && b <= 'Z' {
        b as u32 + 32 == a as u32
    } else {
        false
    }
}

/// Segment comparison, ignoring ASCII case.
pub fn eq_ignore_case(seg: &str, pat: &str) -> (r: bool)
    ensures
        r == matches_ci(seg@, pat@),
{
    let n = seg.unicode_len();
    let m = pat.unicode_len();
    if n != m {
        return false;
    }
    let mut i: usize = 0;
    while i < n
        invariant
            0 <= i <= n,
            n == seg@.len(),
            n == pat@.len(),
            forall|j: int| 0 <= j < i ==> #[trigger] char_ieq(seg@[j], pat@[j]),
        decreases n - i,
    {
        let a = seg.get_char(i);
        let b = pat.get_char(i);
        if !char_eq_ci(a, b) {
            return false;
        }
        i = i + 1;
    }
    true
}

/// The modifier bit a trimmed segment resolves to, if any.
pub fn mod_bit_of(seg: &str) -> (r: Option<u32>)
    ensures
        r == mod_bit(seg@),
{
    if eq_ignore_case(seg, "shift") {
        Some(MOD_SHIFT)
    } else if eq_ignore_case(seg, "ctrl") {
        Some(MOD_CONTROL)
    } else if eq_ignore_case(seg, "alt") {
        Some(MOD_ALT_SUPER)
    } else if eq_ignore_case(seg, "super") {
        Some(MOD_ALT_SUPER)
    } else {
        None
    }
}

/// Spec-level description of a parse failure; payloads are the
/// offending segment text.
pub enum ParseFailure {
    MissingKey,
    UnknownKey(Seq<char>),
    UnknownModifier(Seq<char>),
}

/// Why a combination string failed to parse. Payloads carry the
/// offending segment, trimmed, so a caller can format a diagnostic.
#[derive(Debug, Clone, PartialEq, Eq)]
pub enum ParseError {
    /// The combination string was empty.
    MissingKey,
    /// The key segment is not in the host key-naming table.
    UnknownKey(String),
    /// A modifier segment matches no known modifier alias.
    UnknownModifier(String),
}

impl View for ParseError {
    type V = ParseFailure;

    open spec fn view(&self) -> ParseFailure {
        match self {
            ParseError::MissingKey => ParseFailure::MissingKey,
            ParseError::UnknownKey(n) => ParseFailure::UnknownKey(n@),
            ParseError::UnknownModifier(t) => ParseFailure::UnknownModifier(t@),
        }
    }
}

impl ParseError {
    /// A short human-readable cause, for diagnostics.
    pub fn message(&self) -> (r: String)
        ensures
            match self {
                ParseError::MissingKey => r@ == "Missing key"@,
                ParseError::UnknownKey(n) => r@ == "Unknown key name: "@ + n@,
                ParseError::UnknownModifier(t) => r@ == "Unknown modifier: "@ + t@,
            },
    {
        match self {
            ParseError::MissingKey => "Missing key".to_owned(),
            ParseError::UnknownKey(n) => {
                let mut m = "Unknown key name: ".to_owned();
                m.append(n.as_str());
                m
            },
            ParseError::UnknownModifier(t) => {
                let mut m = "Unknown modifier: ".to_owned();
                m.append(t.as_str());
                m
            },
        }
    }
}

/// A canonical key chord: a set of recognized modifier bits plus the
/// key's identity in the host's key-symbol space. Two combinations are
/// equal exactly when their modifier sets and key identities are equal.
/// Values only come out of [`parse`], which fails on any unknown key,
/// so a combination never holds an unresolved key identity.
#[derive(Debug, Clone, Copy, PartialEq, Eq, Structural)]
pub struct Combination {
    mods: u32,
    key: u32,
}

impl Combination {
    /// The modifier bitmask.
    pub closed spec fn mods(self) -> u32 {
        self.mods
    }

    /// The key identity.
    pub closed spec fn key(self) -> u32 {
        self.key
    }

    /// The modifier bits lie within the recognized mask.
    pub open spec fn wf(self) -> bool {
        self.mods() & MOD_MASK == self.mods()
    }

    /// The modifier bitmask.
    pub fn modifier_bits(&self) -> (r: u32)
        ensures
            r == self.mods(),
    {
        self.mods
    }

    /// The key identity.
    pub fn key_value(&self) -> (r: u32)
        ensures
            r == self.key(),
    {
        self.key
    }

    /// The combination packed into one integer, the map key of a
    /// compiled keymap.
    pub fn id(&self) -> (r: u64)
        ensures
            r == combo_id(self.mods(), self.key()),
    {
        let m = self.mods;
        proof {
            assert(((m as u64) << 32) <= 0xffffffff00000000u64) by (bit_vector);
        }
        ((m as u64) << 32) + (self.key as u64)
    }
}

/// A combination packed into one integer: the modifier bits in the high
/// half, the key identity in the low half.
pub open spec fn combo_id(mods: u32, key: u32) -> u64 {
    (((mods as u64) << 32) + (key as u64)) as u64
}

/// Packing a combination into one integer loses nothing: equal
/// identifiers mean equal modifier sets and equal key identities. This
/// is what makes a lookup by identifier agree with equality of
/// combinations.
pub proof fn lemma_combo_id_injective(m1: u32, k1: u32, m2: u32, k2: u32)
    requires
        combo_id(m1, k1) == combo_id(m2, k2),
    ensures
        m1 == m2 && k1 == k2,
{
    assert((((m1 as u64) << 32) + (k1 as u64)) as u64 == (((m2 as u64) << 32) + (k2 as u64)) as u64
        ==> m1 == m2 && k1 == k2) by (bit_vector);
}

/// Whether parsing `s` against the key resolution `key` succeeds.
pub open spec fn parse_ok(s: Seq<char>, key: Option<u32>) -> bool {
    s.len() > 0 && key is Some && !has_bad_mod(s)
}

/// What parsing returns: the modifier bitmask and key identity on
/// success, otherwise which failure, with the offending segment.
pub open spec fn parse_spec(s: Seq<char>, key: Option<u32>) -> Result<(u32, u32), ParseFailure> {
    if s.len() == 0 {
        Err(ParseFailure::MissingKey)
    } else if key is None {
        Err(ParseFailure::UnknownKey(key_seg(s)))
    } else if has_bad_mod(s) {
        Err(ParseFailure::UnknownModifier(first_bad_from_right(mod_segs(s))))
    } else {
        Ok((mods_of(s), key.unwrap()))
    }
}

/// The failure parsing `s` against the key resolution `key` reports,
/// meaningful when `parse_ok` is false: the error branch of
/// [`parse_spec`].
pub open spec fn parse_failure_of(s: Seq<char>, key: Option<u32>) -> ParseFailure {
    if s.len() == 0 {
        ParseFailure::MissingKey
    } else if key is None {
        ParseFailure::UnknownKey(key_seg(s))
    } else {
        ParseFailure::UnknownModifier(first_bad_from_right(mod_segs(s)))
    }
}

/// How an executable parse result realizes the spec-level one.
pub open spec fn parse_matches(
    r: Result<Combination, ParseError>,
    m: Result<(u32, u32), ParseFailure>,
) -> bool {
    match (r, m) {
        (Ok(c), Ok(p)) => c.mods() == p.0 && c.key() == p.1 && c.wf(),
        (Err(e), Err(f)) => e@ == f,
        _ => false,
    }
}

/// Whether some modifier segment with index at least `from` resolves to
/// the bit `b`.
spec fn has_mod_from(s: Seq<char>, from: int, b: u32) -> bool {
    exists|j: int| from <= j < mod_segs(s).len() && mod_bit(#[trigger] mod_segs(s)[j]) == Some(b)
}

/// A bad segment with only good segments to its right is the one
/// reported.
proof fn lemma_first_bad(segs: Seq<Seq<char>>, i: int)
    requires
        0 <= i < segs.len(),
        mod_bit(segs[i]) is None,
        forall|j: int| i < j < segs.len() ==> !(mod_bit(#[trigger] segs[j]) is None),
    ensures
        first_bad_from_right(segs) == segs[i],
    decreases segs.len(),
{
    if i == segs.len() - 1 {
    } else {
        assert(!(mod_bit(segs.last()) is None));
        lemma_first_bad(segs.drop_last(), i);
    }
}

/// Case-insensitive character equality is symmetric.
proof fn lemma_char_ieq_sym(a: char, b: char)
    requires
        char_ieq(a, b),
    ensures
        char_ieq(b, a),
{
}

/// Spellings equal up to case match the same patterns.
proof fn lemma_char_ieq_trans(a: char, b: char, p: char)
    requires
        char_ieq(a, b),
        char_ieq(a, p),
    ensures
        char_ieq(b, p),
{
    broadcast use vstd::utf8::char_u32_cast;

}

/// Case-insensitivity of the modifier alias table: two spellings of a
/// segment that agree up to ASCII case resolve to the same modifier,
/// or both to none.
pub proof fn lemma_mod_bit_case_insensitive(a: Seq<char>, b: Seq<char>)
    requires
        a.len() == b.len(),
        forall|i: int| 0 <= i < a.len() ==> #[trigger] char_ieq(a[i], b[i]),
    ensures
        mod_bit(a) == mod_bit(b),
{
    assert forall|pat: Seq<char>| #[trigger] matches_ci(a, pat) implies matches_ci(b, pat) by {
        assert forall|i: int| 0 <= i < b.len() implies #[trigger] char_ieq(b[i], pat[i]) by {
            lemma_char_ieq_trans(a[i], b[i], pat[i]);
        }
    }
    assert forall|pat: Seq<char>| #[trigger] matches_ci(b, pat) implies matches_ci(a, pat) by {
        assert forall|i: int| 0 <= i < a.len() implies #[trigger] char_ieq(a[i], pat[i]) by {
            lemma_char_ieq_sym(a[i], b[i]);
            lemma_char_ieq_trans(b[i], a[i], pat[i]);
        }
    }
}

/// Alias collapse: the `"alt"` and `"super"` spellings resolve to the
/// same modifier bit, so combinations written with either are equal.
pub proof fn lemma_alias_collapse()
    ensures
        mod_bit("alt"@) == Some(MOD_ALT_SUPER),
        mod_bit("super"@) == Some(MOD_ALT_SUPER),
{
    reveal_strlit("alt");
    reveal_strlit("super");
    reveal_strlit("shift");
    reveal_strlit("ctrl");
    assert(matches_ci("alt"@, "alt"@));
    assert(matches_ci("super"@, "super"@));
    assert("alt"@.len() == 3 && "shift"@.len() == 5 && "ctrl"@.len() == 4);
    assert(!matches_ci("super"@, "shift"@)) by {
        if matches_ci("super"@, "shift"@) {
            assert(char_ieq("super"@[1], "shift"@[1]));
        }
    }
    assert(!matches_ci("super"@, "ctrl"@));
}

/// A segment that occurs among one string's modifier segments occurs
/// among the other's, when the two agree as multisets.
proof fn lemma_mod_segs_transfer(a: Seq<Seq<char>>, b: Seq<Seq<char>>, i: int)
    requires
        a.to_multiset() == b.to_multiset(),
        0 <= i < a.len(),
    ensures
        exists|j: int| 0 <= j < b.len() && b[j] == a[i],
{
    let e = a[i];
    assert(a.contains(e));
    a.to_multiset_ensures();
    b.to_multiset_ensures();
    assert(b.to_multiset().count(e) > 0);
    assert(b.contains(e));
    assert(exists|j: int| 0 <= j < b.len() && b[j] == e);
}

/// Order independence of modifiers: two combination strings whose
/// modifier segments are a permutation of one another and whose key
/// segments are equal resolve to the same modifier set, fail on
/// unknown modifiers together, and parse to the same combination when
/// they succeed.
pub proof fn lemma_modifier_order_irrelevant(s1: Seq<char>, s2: Seq<char>, key: Option<u32>)
    requires
        s1.len() > 0,
        s2.len() > 0,
        mod_segs(s1).to_multiset() == mod_segs(s2).to_multiset(),
        key_seg(s1) == key_seg(s2),
    ensures
        mods_of(s1) == mods_of(s2),
        has_bad_mod(s1) <==> has_bad_mod(s2),
        parse_ok(s1, key) <==> parse_ok(s2, key),
        parse_ok(s1, key) ==> parse_spec(s1, key) == parse_spec(s2, key),
{
    let a = mod_segs(s1);
    let b = mod_segs(s2);
    assert forall|bit: u32| has_mod(s1, bit) implies has_mod(s2, bit) by {
        let i = choose|i: int| 0 <= i < a.len() && mod_bit(#[trigger] a[i]) == Some(bit);
        lemma_mod_segs_transfer(a, b, i);
        let j = choose|j: int| 0 <= j < b.len() && b[j] == a[i];
        assert(mod_bit(b[j]) == Some(bit));
    }
    assert forall|bit: u32| has_mod(s2, bit) implies has_mod(s1, bit) by {
        let j = choose|j: int| 0 <= j < b.len() && mod_bit(#[trigger] b[j]) == Some(bit);
        lemma_mod_segs_transfer(b, a, j);
        let i = choose|i: int| 0 <= i < a.len() && a[i] == b[j];
        assert(mod_bit(a[i]) == Some(bit));
    }
    if has_bad_mod(s1) {
        let i = choose|i: int| 0 <= i < a.len() && mod_bit(#[trigger] a[i]) is None;
        lemma_mod_segs_transfer(a, b, i);
        let j = choose|j: int| 0 <= j < b.len() && b[j] == a[i];
        assert(mod_bit(b[j]) is None);
        assert(has_bad_mod(s2));
    }
    if has_bad_mod(s2) {
        let j = choose|j: int| 0 <= j < b.len() && mod_bit(#[trigger] b[j]) is None;
        lemma_mod_segs_transfer(b, a, j);
        let i = choose|i: int| 0 <= i < a.len() && a[i] == b[j];
        assert(mod_bit(a[i]) is None);
        assert(has_bad_mod(s1));
    }
}

/// The key segment of a combination string: the last `'+'`-separated
/// segment, trimmed. This is the name to resolve against the host
/// key-naming table before calling [`parse`]. An empty combination
/// string has no key segment and is rejected.
pub fn key_name(s: &str) -> (r: Result<String, ParseError>)
    ensures
        match r {
            Ok(name) => s@.len() > 0 && name@ == key_seg(s@),
            Err(e) => s@.len() == 0 && e@ == ParseFailure::MissingKey,
        },
{
    let n = s.unicode_len();
    if n == 0 {
        return Err(ParseError::MissingKey);
    }
    let segs = split_segments(s);
    proof {
        lemma_split_plus_len(s@);
        assert(seg_views(segs@).len() == segs@.len());
    }
    let m = segs.len();
    let t = trim_of(segs[m - 1]);
    Ok(t.to_owned())
}

/// Parse a combination string into a canonical [`Combination`].
///
/// `key` is the host key-naming table's resolution of the key segment
/// (the value [`key_name`] returns): `Some` with the key's identity, or
/// `None` where the table knows no such name. Everything else — the
/// split on `'+'`, trimming, and the case-insensitive modifier alias
/// table — is decided here:
/// - an empty string fails with `MissingKey`;
/// - `key == None` fails with `UnknownKey`, carrying the key segment;
/// - a modifier segment outside the alias table fails with
///   `UnknownModifier`, carrying the rightmost such segment;
/// - otherwise the result holds the union of the resolved modifier
///   bits, duplicates collapsed and order irrelevant, plus the key.
pub fn parse(s: &str, key: Option<u32>) -> (r: Result<Combination, ParseError>)
    ensures
        parse_matches(r, parse_spec(s@, key)),
        r is Ok <==> parse_ok(s@, key),
{
    let n = s.unicode_len();
    if n == 0 {
        return Err(ParseError::MissingKey);
    }
    let segs = split_segments(s);
    proof {
        lemma_split_plus_len(s@);
        assert(seg_views(segs@).len() == segs@.len());
    }
    let m = segs.len();
    let key_text = trim_of(segs[m - 1]);
    proof {
        assert(seg_views(segs@)[m - 1] == segs@[m - 1]@);
        assert(key_text@ == key_seg(s@));
    }
    let kv = match key {
        Some(k) => k,
        None => {
            return Err(ParseError::UnknownKey(key_text.to_owned()));
        },
    };
    let ghost msegs = mod_segs(s@);
    proof {
        assert(msegs.len() == m - 1);
        assert(forall|j: int|
            0 <= j < msegs.len() ==> #[trigger] msegs[j] == trim_spec(split_plus(s@)[j]));
    }
    let mut saw_shift = false;
    let mut saw_ctrl = false;
    let mut saw_alt = false;
    let mut idx = m - 1;
    while idx > 0
        invariant
            0 <= idx <= m - 1,
            m == segs@.len(),
            s@.len() > 0,
            key == Some(kv),
            seg_views(segs@) == split_plus(s@),
            msegs == mod_segs(s@),
            msegs.len() == m - 1,
            saw_shift == has_mod_from(s@, idx as int, MOD_SHIFT),
            saw_ctrl == has_mod_from(s@, idx as int, MOD_CONTROL),
            saw_alt == has_mod_from(s@, idx as int, MOD_ALT_SUPER),
            forall|j: int| idx <= j < msegs.len() ==> !(mod_bit(#[trigger] msegs[j]) is None),
        decreases idx,
    {
        idx = idx - 1;
        let seg = trim_of(segs[idx]);
        proof {
            assert(seg_views(segs@)[idx as int] == segs@[idx as int]@);
            assert(seg@ == msegs[idx as int]);
        }
        match mod_bit_of(seg) {
            Some(b) => {
                if b == MOD_SHIFT {
                    saw_shift = true;
                } else if b == MOD_CONTROL {
                    saw_ctrl = true;
                } else {
                    saw_alt = true;
                }
            },
            None => {
                proof {
                    lemma_first_bad(msegs, idx as int);
                    assert(mod_bit(mod_segs(s@)[idx as int]) is None);
                    assert(has_bad_mod(s@));
                    assert(first_bad_from_right(mod_segs(s@)) == seg@);
                }
                return Err(ParseError::UnknownModifier(seg.to_owned()));
            },
        }
    }
    let mods = (if saw_shift {
        MOD_SHIFT
    } else {
        0
    }) + (if saw_ctrl {
        MOD_CONTROL
    } else {
        0
    }) + (if saw_alt {
        MOD_ALT_SUPER
    } else {
        0
    });
    proof {
        let ghost a: u32 = if saw_shift {
            MOD_SHIFT
        } else {
            0
        };
        let ghost b: u32 = if saw_ctrl {
            MOD_CONTROL
        } else {
            0
        };
        let ghost c: u32 = if saw_alt {
            MOD_ALT_SUPER
        } else {
            0
        };
        assert(mods & 21u32 == mods) by (bit_vector)
            requires
                mods == a + b + c,
                a == 0u32 || a == 1u32,
                b == 0u32 || b == 4u32,
                c == 0u32 || c == 16u32,
        ;
        assert(mods == mods_of(s@));
    }
    Ok(Combination { mods, key: kv })
}

} // verus!

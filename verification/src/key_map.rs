//! The key remap table: an immutable mapping from an input key chord to an
//! output key chord, together with the line-oriented text format it is
//! loaded from.

use vstd::prelude::*;

use crate::assoc::assoc_map;
use crate::assoc::assoc_unique;
use crate::assoc::lemma_assoc_map_domain;
use crate::assoc::lemma_assoc_map_entry;
use crate::assoc::lemma_assoc_map_update;

verus! {

/// A key chord: a key code together with a modifier bitmask.
#[derive(Hash, Clone, Copy, PartialEq, Eq, Structural, Debug)]
pub struct Key {
    pub code: u32,
    pub state: u32,
}

/// One token of a chord: either a plain key code or a modifier that
/// contributes bits to the chord's modifier state.
#[derive(Clone, Copy, PartialEq, Eq, Structural, Debug)]
pub enum KeyConstant {
    NormalKey { code: u32 },
    ModifierKey { state: u32 },
}

/// Why a remap-table text could not be parsed; every variant carries the
/// 1-based number of the offending line.
#[derive(Clone, Copy, PartialEq, Eq, Structural, Debug)]
pub enum KeyMapParseError {
    NotAscii { line_number: usize },
    CouldNotParse { line_number: usize },
    NoKeyPresent { line_number: usize },
    NotValidKey { line_number: usize },
    TooFewArguments { line_number: usize },
    TooManyArguments { line_number: usize },
}

/// The remap table. The pairs are kept as a list whose input chords are
/// pairwise distinct, so the table denotes the finite map [`KeyMap::as_map`].
pub struct KeyMap {
    pairs: Vec<(Key, Key)>,
}

/// The input chords of a pair list, in list order.
pub open spec fn firsts_of(pairs: Seq<(Key, Key)>) -> Seq<Key> {
    pairs.map_values(|p: (Key, Key)| p.0)
}

impl View for KeyMap {
    type V = Seq<(Key, Key)>;

    closed spec fn view(&self) -> Seq<(Key, Key)> {
        self.pairs@
    }
}

impl KeyMap {
    /// The input chords are pairwise distinct, so the list denotes a map.
    pub open spec fn wf(&self) -> bool {
        assoc_unique(self@)
    }

    /// The finite map this table denotes.
    pub open spec fn as_map(&self) -> Map<Key, Key> {
        assoc_map(self@)
    }

    /// The empty remap table.
    pub fn new() -> (r: KeyMap)
        ensures
            r.wf(),
            r@ =~= Seq::<(Key, Key)>::empty(),
            r.as_map() =~= Map::<Key, Key>::empty(),
    {
        KeyMap { pairs: Vec::new() }
    }

    /// Adds one rule, replacing any earlier rule for the same input chord.
    pub fn insert_mapping(&mut self, press: Key, mapped: Key)
        requires
            old(self).wf(),
        ensures
            final(self).wf(),
            final(self).as_map() =~= old(self).as_map().insert(press, mapped),
    {
        let ghost orig = old(self)@;
        let n = self.pairs.len();
        for i in 0..n
            invariant
                n == self@.len(),
                self@ == orig,
                old(self).wf(),
                orig == old(self)@,
                forall|j: int| 0 <= j < i ==> (#[trigger] self@[j]).0 != press,
        {
            if self.pairs[i].0 == press {
                self.pairs.set(i, (press, mapped));
                proof {
                    assert forall|j: int| 0 <= j < self@.len() implies (#[trigger] self@[j]).0
                        == orig[j].0 by {
                        assert(orig[i as int].0 == press);
                    }
                    lemma_assoc_map_update(orig, i as int, press, mapped);
                }
                return ;
            }
        }
        self.pairs.push((press, mapped));
        proof {
            assert(self@.drop_last() =~= orig);
            assert forall|j: int, l: int| 0 <= j < l < self@.len() implies (
            #[trigger] self@[j]).0 != (#[trigger] self@[l]).0 by {
                if l < self@.len() - 1 {
                    assert(orig[j].0 != orig[l].0);
                } else {
                    assert(self@[j].0 != press);
                }
            }
        }
    }

    /// The input chords of every rule, in table order — the chords to grab.
    pub fn keys(&self) -> (r: Vec<Key>)
        ensures
            r@ == firsts_of(self@),
    {
        let mut out: Vec<Key> = Vec::new();
        let n = self.pairs.len();
        for i in 0..n
            invariant
                n == self@.len(),
                out@.len() == i,
                forall|j: int| 0 <= j < i ==> #[trigger] out@[j] == self@[j].0,
        {
            out.push(self.pairs[i].0);
        }
        proof {
            assert(out@ =~= firsts_of(self@));
        }
        out
    }

    /// Looks a chord up in the table: the output chord it is remapped to,
    /// or `None` when the table holds no rule for it.
    pub fn mapped_key(&self, key: Key) -> (r: Option<Key>)
        requires
            self.wf(),
        ensures
            r == (if self.as_map().contains_key(key) {
                Some(self.as_map()[key])
            } else {
                None::<Key>
            }),
    {
        let n = self.pairs.len();
        for i in 0..n
            invariant
                n == self@.len(),
                self.wf(),
                forall|j: int| 0 <= j < i ==> (#[trigger] self@[j]).0 != key,
        {
            if self.pairs[i].0 == key {
                proof {
                    lemma_assoc_map_entry(self@, i as int);
                }
                return Some(self.pairs[i].1);
            }
        }
        proof {
            lemma_assoc_map_domain(self@);
        }
        None
    }
}

impl Clone for KeyMap {
    /// A clone denotes the same pair list, and so the same map.
    fn clone(&self) -> (r: Self)
        ensures
            r@ == self@,
    {
        let mut pairs: Vec<(Key, Key)> = Vec::new();
        let n = self.pairs.len();
        for i in 0..n
            invariant
                n == self@.len(),
                pairs@.len() == i,
                forall|j: int| 0 <= j < i ==> #[trigger] pairs@[j] == self@[j],
        {
            pairs.push(self.pairs[i]);
        }
        proof {
            assert(pairs@ =~= self@);
        }
        KeyMap { pairs }
    }
}

/// A byte of the 7-bit range; a remap-table line may hold no other.
pub open spec fn is_ascii_byte(b: u8) -> bool {
    b < 128
}

pub open spec fn all_ascii(s: Seq<u8>) -> bool {
    forall|i: int| 0 <= i < s.len() ==> is_ascii_byte(#[trigger] s[i])
}

/// The ASCII whitespace bytes that surrounding trim removes.
pub open spec fn is_space_byte(b: u8) -> bool {
    b == 32 || b == 9 || b == 10 || b == 13 || b == 11 || b == 12
}

pub open spec fn trim_front(s: Seq<u8>) -> Seq<u8>
    decreases s.len(),
{
    if s.len() > 0 && is_space_byte(s[0]) {
        trim_front(s.skip(1))
    } else {
        s
    }
}

pub open spec fn trim_back(s: Seq<u8>) -> Seq<u8>
    decreases s.len(),
{
    if s.len() > 0 && is_space_byte(s.last()) {
        trim_back(s.drop_last())
    } else {
        s
    }
}

/// A line with its leading and trailing whitespace removed.
pub open spec fn trim_spec(s: Seq<u8>) -> Seq<u8> {
    trim_back(trim_front(s))
}

/// The pieces of `s` between occurrences of `sep`; always at least one
/// piece, and empty pieces where separators touch.
pub open spec fn split_bytes(s: Seq<u8>, sep: u8) -> Seq<Seq<u8>>
    decreases s.len(),
{
    if s.len() == 0 {
        seq![Seq::<u8>::empty()]
    } else if s[0] == sep {
        seq![Seq::<u8>::empty()] + split_bytes(s.skip(1), sep)
    } else {
        let rest = split_bytes(s.skip(1), sep);
        rest.update(0, seq![s[0]] + rest[0])
    }
}

pub proof fn lemma_split_bytes_nonempty(s: Seq<u8>, sep: u8)
    ensures
        split_bytes(s, sep).len() >= 1,
    decreases s.len(),
{
    if s.len() > 0 {
        lemma_split_bytes_nonempty(s.skip(1), sep);
    }
}

proof fn lemma_trim_front_skip(s: Seq<u8>, lo: int)
    requires
        0 <= lo <= s.len(),
        forall|j: int| 0 <= j < lo ==> is_space_byte(#[trigger] s[j]),
        lo == s.len() || !is_space_byte(s[lo]),
    ensures
        trim_front(s) == s.skip(lo),
    decreases lo,
{
    if lo == 0 {
        assert(s.skip(0) =~= s);
    } else {
        lemma_trim_front_skip(s.skip(1), lo - 1);
        assert(s.skip(1).skip(lo - 1) =~= s.skip(lo));
    }
}

proof fn lemma_trim_back_take(s: Seq<u8>, hi: int)
    requires
        0 <= hi <= s.len(),
        forall|j: int| hi <= j < s.len() ==> is_space_byte(#[trigger] s[j]),
        hi == 0 || !is_space_byte(s[hi - 1]),
    ensures
        trim_back(s) == s.take(hi),
    decreases s.len(),
{
    if hi == s.len() {
        assert(s.take(hi) =~= s);
    } else {
        lemma_trim_back_take(s.drop_last(), hi);
        assert(s.drop_last().take(hi) =~= s.take(hi));
    }
}

/// Copies `s` with its surrounding ASCII whitespace removed.
fn trim_ascii(s: &[u8]) -> (r: Vec<u8>)
    ensures
        r@ == trim_spec(s@),
{
    let len = s.len();
    let mut lo: usize = 0;
    while lo < len && (s[lo] == 32 || s[lo] == 9 || s[lo] == 10 || s[lo] == 13 || s[lo] == 11
        || s[lo] == 12)
        invariant
            0 <= lo <= len,
            len == s@.len(),
            forall|j: int| 0 <= j < lo ==> is_space_byte(#[trigger] s@[j]),
        decreases len - lo,
    {
        lo = lo + 1;
    }
    let mut hi: usize = len;
    while hi > lo && (s[hi - 1] == 32 || s[hi - 1] == 9 || s[hi - 1] == 10 || s[hi - 1] == 13
        || s[hi - 1] == 11 || s[hi - 1] == 12)
        invariant
            lo <= hi <= len,
            len == s@.len(),
            forall|j: int| hi <= j < len ==> is_space_byte(#[trigger] s@[j]),
        decreases hi,
    {
        hi = hi - 1;
    }
    let mut out: Vec<u8> = Vec::new();
    let mut i: usize = lo;
    while i < hi
        invariant
            lo <= i <= hi <= len,
            len == s@.len(),
            out@ =~= s@.subrange(lo as int, i as int),
        decreases hi - i,
    {
        out.push(s[i]);
        i = i + 1;
    }
    proof {
        lemma_trim_front_skip(s@, lo as int);
        let t = s@.skip(lo as int);
        lemma_trim_back_take(t, hi - lo);
        assert(t.take(hi - lo) =~= s@.subrange(lo as int, hi as int));
    }
    out
}

/// Checks that every byte of the line is 7-bit ASCII.
fn bytes_are_ascii(s: &[u8]) -> (r: bool)
    ensures
        r == all_ascii(s@),
{
    let len = s.len();
    let mut i: usize = 0;
    while i < len
        invariant
            0 <= i <= len,
            len == s@.len(),
            forall|j: int| 0 <= j < i ==> is_ascii_byte(#[trigger] s@[j]),
        decreases len - i,
    {
        if s[i] >= 128 {
            return false;
        }
        i = i + 1;
    }
    true
}

/// Relates a partly built split to the split of the whole input: the pieces
/// already finished, the piece under construction glued to the first piece
/// still to come, and the remaining pieces.
spec fn split_glue(done: Seq<Seq<u8>>, cur: Seq<u8>, tail: Seq<Seq<u8>>) -> Seq<Seq<u8>> {
    done + seq![cur + tail[0]] + tail.skip(1)
}

/// Splits `s` at every occurrence of `sep`.
fn split_on(s: &[u8], sep: u8) -> (r: Vec<Vec<u8>>)
    ensures
        r.deep_view() == split_bytes(s@, sep),
        r.len() >= 1,
{
    let len = s.len();
    let mut out: Vec<Vec<u8>> = Vec::new();
    let mut cur: Vec<u8> = Vec::new();
    let mut i: usize = 0;
    proof {
        lemma_split_bytes_nonempty(s@, sep);
        assert(s@.skip(0) =~= s@);
    }
    while i < len
        invariant
            0 <= i <= len,
            len == s@.len(),
            split_bytes(s@.skip(i as int), sep).len() >= 1,
            split_glue(out.deep_view(), cur@, split_bytes(s@.skip(i as int), sep)) =~~= split_bytes(
                s@,
                sep,
            ),
        decreases len - i,
    {
        let ghost pre = s@.skip(i as int);
        let ghost post = s@.skip(i as int + 1);
        proof {
            lemma_split_bytes_nonempty(post, sep);
            assert(pre[0] == s@[i as int]);
            assert(pre.skip(1) =~= post);
        }
        if s[i] == sep {
            out.push(cur);
            cur = Vec::new();
            proof {
                assert(split_bytes(pre, sep) =~~= seq![Seq::<u8>::empty()] + split_bytes(
                    post,
                    sep,
                ));
                assert(split_glue(out.deep_view(), cur@, split_bytes(post, sep)) =~~= split_glue(
                    out.deep_view().drop_last(),
                    out.deep_view().last(),
                    split_bytes(pre, sep),
                ));
            }
        } else {
            let b = s[i];
            cur.push(b);
            proof {
                let r0 = split_bytes(post, sep);
                assert(split_bytes(pre, sep) =~~= r0.update(0, seq![b] + r0[0]));
                assert(cur@ + r0[0] =~= cur@.drop_last() + (seq![b] + r0[0]));
                assert(split_glue(out.deep_view(), cur@, r0) =~~= split_glue(
                    out.deep_view(),
                    cur@.drop_last(),
                    split_bytes(pre, sep),
                ));
            }
        }
        i = i + 1;
    }
    let ghost done = out.deep_view();
    let ghost last_piece = cur@;
    out.push(cur);
    proof {
        assert(s@.skip(len as int) =~= Seq::<u8>::empty());
        let tail = split_bytes(s@.skip(len as int), sep);
        assert(tail =~~= seq![Seq::<u8>::empty()]);
        assert(last_piece + tail[0] =~= last_piece);
        assert(out.deep_view() =~~= done + seq![last_piece]);
        assert(split_glue(done, last_piece, tail) =~~= done + seq![last_piece]);
    }
    out
}

pub open spec fn is_digit_byte(b: u8) -> bool {
    48 <= b <= 57
}

pub open spec fn all_digits(s: Seq<u8>) -> bool {
    forall|i: int| 0 <= i < s.len() ==> is_digit_byte(#[trigger] s[i])
}

/// The number a digit string denotes, most significant digit first.
pub open spec fn digits_value(s: Seq<u8>) -> int
    decreases s.len(),
{
    if s.len() == 0 {
        0
    } else {
        digits_value(s.drop_last()) * 10 + (s.last() - 48)
    }
}

pub open spec fn pow10(n: nat) -> nat
    decreases n,
{
    if n == 0 {
        1
    } else {
        10 * pow10((n - 1) as nat)
    }
}

/// The value a key-code token denotes: an optional leading `+`, then at
/// least one digit, the whole fitting a 32-bit code.
pub open spec fn numeral_value(s: Seq<u8>) -> Option<u32> {
    let body = if s.len() > 0 && s[0] == 43 {
        s.skip(1)
    } else {
        s
    };
    if body.len() > 0 && all_digits(body) && digits_value(body) <= u32::MAX {
        Some(digits_value(body) as u32)
    } else {
        None
    }
}

proof fn lemma_digits_value_drop_leading_zeros(s: Seq<u8>, z: int)
    requires
        0 <= z <= s.len(),
        forall|j: int| 0 <= j < z ==> #[trigger] s[j] == 48,
    ensures
        digits_value(s) == digits_value(s.skip(z)),
    decreases s.len(),
{
    if z == 0 {
        assert(s.skip(0) =~= s);
    } else if s.len() == z {
        lemma_digits_value_drop_leading_zeros(s.drop_last(), z - 1);
        assert(s.drop_last().skip(z - 1) =~= Seq::<u8>::empty());
        assert(s.last() == 48);
        assert(s.skip(z) =~= Seq::<u8>::empty());
    } else {
        lemma_digits_value_drop_leading_zeros(s.drop_last(), z);
        assert(s.drop_last().skip(z) =~= s.skip(z).drop_last());
        assert(s.skip(z).last() == s.last());
    }
}

proof fn lemma_digits_value_upper(s: Seq<u8>)
    requires
        all_digits(s),
    ensures
        digits_value(s) < pow10(s.len() as nat),
    decreases s.len(),
{
    if s.len() > 0 {
        assert(all_digits(s.drop_last())) by {
            assert(forall|i: int| 0 <= i < s.len() - 1 ==> s.drop_last()[i] == s[i]);
        }
        lemma_digits_value_upper(s.drop_last());
        assert(s.last() - 48 <= 9);
    }
}

proof fn lemma_digits_value_lower(s: Seq<u8>)
    requires
        all_digits(s),
        s.len() > 0,
        s[0] != 48,
    ensures
        digits_value(s) >= pow10((s.len() - 1) as nat),
    decreases s.len(),
{
    if s.len() == 1 {
        assert(s.last() - 48 >= 1);
    } else {
        assert(all_digits(s.drop_last())) by {
            assert(forall|i: int| 0 <= i < s.len() - 1 ==> s.drop_last()[i] == s[i]);
        }
        assert(s.drop_last()[0] == s[0]);
        lemma_digits_value_lower(s.drop_last());
        assert(s.last() - 48 >= 0);
        assert(digits_value(s.drop_last()) * 10 >= pow10((s.len() - 2) as nat) * 10) by (nonlinear_arith)
            requires
                digits_value(s.drop_last()) >= pow10((s.len() - 2) as nat),
        ;
    }
}

proof fn lemma_pow10_mono(a: nat, b: nat)
    requires
        a <= b,
    ensures
        pow10(a) <= pow10(b),
    decreases b,
{
    if a < b {
        lemma_pow10_mono(a, (b - 1) as nat);
    }
}

/// Reads a decimal key-code token, rejecting values over the 32-bit range.
#[verifier::loop_isolation(false)]
fn parse_code_token(t: &[u8]) -> (r: Option<u32>)
    ensures
        r == numeral_value(t@),
{
    let len = t.len();
    let start: usize = if len > 0 && t[0] == 43 {
        1
    } else {
        0
    };
    let ghost body = if t@.len() > 0 && t@[0] == 43 {
        t@.skip(1)
    } else {
        t@
    };
    proof {
        assert(body =~= t@.skip(start as int));
        assert(body.len() == len - start);
    }
    if start == len {
        return None;
    }
    let mut i: usize = start;
    while i < len
        invariant
            start <= i <= len,
            len == t@.len(),
            body =~= t@.skip(start as int),
            forall|j: int| start <= j < i ==> is_digit_byte(#[trigger] t@[j]),
        decreases len - i,
    {
        if t[i] < 48 || t[i] > 57 {
            proof {
                assert(body[i - start] == t@[i as int]);
                assert(!all_digits(body));
            }
            return None;
        }
        i = i + 1;
    }
    proof {
        assert(all_digits(body)) by {
            assert(forall|j: int| 0 <= j < body.len() ==> body[j] == t@[j + start]);
        }
    }
    let mut z: usize = start;
    while z < len && t[z] == 48
        invariant
            start <= z <= len,
            len == t@.len(),
            forall|j: int| start <= j < z ==> #[trigger] t@[j] == 48,
        decreases len - z,
    {
        z = z + 1;
    }
    proof {
        assert(forall|j: int| 0 <= j < z - start ==> #[trigger] body[j] == 48);
        lemma_digits_value_drop_leading_zeros(body, z - start);
        assert(body.skip(z - start) =~= t@.skip(z as int));
    }
    let ghost sig = t@.skip(z as int);
    proof {
        assert(all_digits(sig)) by {
            assert(forall|j: int| 0 <= j < sig.len() ==> sig[j] == t@[j + z]);
        }
        assert(pow10(10) == 10000000000) by {
            reveal_with_fuel(pow10, 11);
        }
    }
    if len - z > 10 {
        proof {
            assert(sig[0] != 48);
            lemma_digits_value_lower(sig);
            lemma_pow10_mono(10, (sig.len() - 1) as nat);
            assert(digits_value(body) > u32::MAX);
        }
        return None;
    }
    let mut value: u64 = 0;
    let mut k: usize = z;
    while k < len
        invariant
            z <= k <= len,
            len == t@.len(),
            len - z <= 10,
            all_digits(sig),
            sig =~= t@.skip(z as int),
            value == digits_value(t@.subrange(z as int, k as int)),
            value < pow10((k - z) as nat),
            pow10((k - z) as nat) <= pow10(10),
            pow10(10) == 10000000000,
        decreases len - k,
    {
        let ghost prefix = t@.subrange(z as int, k as int);
        let d = t[k];
        proof {
            assert(is_digit_byte(t@[k as int])) by {
                assert(sig[k - z] == t@[k as int]);
            }
            assert(t@.subrange(z as int, k as int + 1).drop_last() =~= prefix);
            assert(t@.subrange(z as int, k as int + 1).last() == t@[k as int]);
            lemma_pow10_mono((k + 1 - z) as nat, 10);
        }
        value = value * 10 + ((d - 48) as u64);
        k = k + 1;
    }
    proof {
        assert(t@.subrange(z as int, len as int) =~= sig);
        lemma_digits_value_upper(sig);
    }
    if value > 0xFFFF_FFFF {
        return None;
    }
    Some(value as u32)
}

/// The token reading of [`parse_key`]: a decimal numeral is a key code,
/// the three modifier names contribute their modifier bits, anything else
/// is invalid.
pub open spec fn spec_parse_key(s: Seq<u8>) -> Option<KeyConstant> {
    if numeral_value(s) is Some {
        Some(KeyConstant::NormalKey { code: numeral_value(s).unwrap() })
    } else if s =~= seq![83u8, 104u8, 105u8, 102u8, 116u8] {  // "Shift"
        Some(KeyConstant::ModifierKey { state: 0x1 })
    } else if s =~= seq![67u8, 116u8, 114u8, 108u8] {  // "Ctrl"
        Some(KeyConstant::ModifierKey { state: 0x4 })
    } else if s =~= seq![65u8, 108u8, 116u8] {  // "Alt"
        Some(KeyConstant::ModifierKey { state: 0x8 })
    } else {
        None
    }
}

/// Reads one chord token: a decimal key code, or one of the modifier names
/// `Shift`, `Ctrl` and `Alt`.
pub fn parse_key(current_string: &[u8]) -> (r: Option<KeyConstant>)
    ensures
        r == spec_parse_key(current_string@),
{
    if let Some(code) = parse_code_token(current_string) {
        return Some(KeyConstant::NormalKey { code });
    }
    let s = current_string;
    if s.len() == 5 && s[0] == 83 && s[1] == 104 && s[2] == 105 && s[3] == 102 && s[4] == 116 {
        proof {
            assert(s@ =~= seq![83u8, 104u8, 105u8, 102u8, 116u8]);
        }
        Some(KeyConstant::ModifierKey { state: 0x1 })
    } else if s.len() == 4 && s[0] == 67 && s[1] == 116 && s[2] == 114 && s[3] == 108 {
        proof {
            assert(s@ =~= seq![67u8, 116u8, 114u8, 108u8]);
        }
        Some(KeyConstant::ModifierKey { state: 0x4 })
    } else if s.len() == 3 && s[0] == 65 && s[1] == 108 && s[2] == 116 {
        proof {
            assert(s@ =~= seq![65u8, 108u8, 116u8]);
        }
        Some(KeyConstant::ModifierKey { state: 0x8 })
    } else {
        proof {
            assert(!(s@ =~= seq![83u8, 104u8, 105u8, 102u8, 116u8]));
            assert(!(s@ =~= seq![67u8, 116u8, 114u8, 108u8]));
            assert(!(s@ =~= seq![65u8, 108u8, 116u8]));
        }
        None
    }
}

/// Folds chord tokens left to right: modifier tokens accumulate state bits
/// until the first key-code token yields the chord; a bad token or a chord
/// with no key code is an error carrying the line number.
pub open spec fn chord_result(tokens: Seq<Seq<u8>>, state: u32, line_number: usize) -> Result<
    Key,
    KeyMapParseError,
>
    decreases tokens.len(),
{
    if tokens.len() == 0 {
        Err(KeyMapParseError::NoKeyPresent { line_number })
    } else {
        match spec_parse_key(tokens[0]) {
            None => Err(KeyMapParseError::NotValidKey { line_number }),
            Some(KeyConstant::NormalKey { code }) => Ok(Key { code, state }),
            Some(KeyConstant::ModifierKey { state: modifier }) => chord_result(
                tokens.skip(1),
                state | modifier,
                line_number,
            ),
        }
    }
}

/// The chord a `+`-joined token string denotes.
pub open spec fn spec_parse_split(s: Seq<u8>, line_number: usize) -> Result<
    Key,
    KeyMapParseError,
> {
    chord_result(split_bytes(s, 43), 0, line_number)
}

/// Reads one `+`-joined chord, such as `Shift+46`.
#[verifier::loop_isolation(false)]
pub fn parse_split(split: &[u8], line_number: usize) -> (r: Result<Key, KeyMapParseError>)
    ensures
        r == spec_parse_split(split@, line_number),
{
    let tokens = split_on(split, 43);
    let ghost all = tokens.deep_view();
    let mut state: u32 = 0;
    let n = tokens.len();
    let mut i: usize = 0;
    proof {
        assert(all.skip(0) =~~= all);
    }
    while i < n
        invariant
            0 <= i <= n,
            n == all.len(),
            chord_result(all, 0, line_number) == chord_result(
                all.skip(i as int),
                state,
                line_number,
            ),
        decreases n - i,
    {
        let ghost rest = all.skip(i as int);
        proof {
            assert(rest[0] == all[i as int]);
            assert(rest.skip(1) =~~= all.skip(i as int + 1));
            assert(tokens@[i as int]@ == all[i as int]);
        }
        match parse_key(tokens[i].as_slice()) {
            Some(KeyConstant::NormalKey { code }) => {
                return Ok(Key { code, state });
            },
            Some(KeyConstant::ModifierKey { state: modifier }) => {
                state = state | modifier;
            },
            None => {
                return Err(KeyMapParseError::NotValidKey { line_number });
            },
        }
        i = i + 1;
    }
    proof {
        assert(all.skip(n as int) =~~= Seq::<Seq<u8>>::empty());
    }
    Err(KeyMapParseError::NoKeyPresent { line_number })
}

/// What one line of the table text contributes: a comment or blank line
/// changes nothing, a rule line adds one mapping (overwriting an earlier
/// rule for the same chord), anything else is an error carrying the line's
/// 1-based number.
pub open spec fn spec_line_result(line: Seq<u8>, line_number: usize, acc: Map<Key, Key>) -> Result<
    Map<Key, Key>,
    KeyMapParseError,
> {
    if !all_ascii(line) {
        Err(KeyMapParseError::NotAscii { line_number })
    } else {
        let pieces = split_bytes(trim_spec(line), 32);
        if pieces[0].len() == 0 || pieces[0][0] == 35 {
            Ok(acc)
        } else if pieces.len() < 2 {
            Err(KeyMapParseError::TooFewArguments { line_number })
        } else if pieces.len() > 2 {
            Err(KeyMapParseError::TooManyArguments { line_number })
        } else {
            match spec_parse_split(pieces[0], line_number) {
                Err(e) => Err(e),
                Ok(press) => match spec_parse_split(pieces[1], line_number) {
                    Err(e) => Err(e),
                    Ok(mapped) => Ok(acc.insert(press, mapped)),
                },
            }
        }
    }
}

/// Folds [`spec_line_result`] over the lines from index `i` on, stopping at
/// the first error.
pub open spec fn spec_parse_lines(lines: Seq<Seq<u8>>, i: int, acc: Map<Key, Key>) -> Result<
    Map<Key, Key>,
    KeyMapParseError,
>
    decreases lines.len() - i when 0 <= i <= lines.len()
{
    if i >= lines.len() {
        Ok(acc)
    } else {
        match spec_line_result(lines[i], (i + 1) as usize, acc) {
            Err(e) => Err(e),
            Ok(next) => spec_parse_lines(lines, i + 1, next),
        }
    }
}

impl KeyMap {
    /// Builds the remap table from the lines of its text format: one rule
    /// per line, `<chord> <chord>`, chords `+`-joined tokens; blank lines
    /// and lines starting with `#` are skipped.
    #[verifier::loop_isolation(false)]
    pub fn from_lines(lines: &Vec<Vec<u8>>) -> (r: Result<KeyMap, KeyMapParseError>)
        ensures
            ({
                let outcome = spec_parse_lines(lines.deep_view(), 0, Map::empty());
                match r {
                    Ok(km) => km.wf() && outcome == Ok::<Map<Key, Key>, KeyMapParseError>(
                        km.as_map(),
                    ),
                    Err(e) => outcome == Err::<Map<Key, Key>, KeyMapParseError>(e),
                }
            }),
    {
        let ghost lv = lines.deep_view();
        let mut km = KeyMap::new();
        let n = lines.len();
        proof {
            assert(km.as_map() =~= Map::<Key, Key>::empty());
        }
        let mut i: usize = 0;
        while i < n
            invariant
                0 <= i <= n,
                n == lv.len(),
                km.wf(),
                spec_parse_lines(lv, 0, Map::empty()) == spec_parse_lines(lv, i as int, km.as_map()),
            decreases n - i,
        {
            let line_number = i + 1;
            let ghost lseq = lv[i as int];
            proof {
                assert(lseq == lines@[i as int]@);
            }
            if !bytes_are_ascii(lines[i].as_slice()) {
                return Err(KeyMapParseError::NotAscii { line_number });
            }
            let trimmed = trim_ascii(lines[i].as_slice());
            let pieces = split_on(trimmed.as_slice(), 32);
            let ghost pv = split_bytes(trim_spec(lseq), 32);
            proof {
                assert(pv == pieces.deep_view());
                assert(pieces@[0]@ == pv[0]);
            }
            if pieces[0].len() == 0 || pieces[0][0] == 35 {
                // a blank line or a comment contributes nothing
            } else if pieces.len() < 2 {
                return Err(KeyMapParseError::TooFewArguments { line_number });
            } else if pieces.len() > 2 {
                return Err(KeyMapParseError::TooManyArguments { line_number });
            } else {
                proof {
                    assert(pieces@[1]@ == pv[1]);
                }
                let press = match parse_split(pieces[0].as_slice(), line_number) {
                    Ok(press) => press,
                    Err(e) => {
                        return Err(e);
                    },
                };
                let mapped = match parse_split(pieces[1].as_slice(), line_number) {
                    Ok(mapped) => mapped,
                    Err(e) => {
                        return Err(e);
                    },
                };
                km.insert_mapping(press, mapped);
            }
            i = i + 1;
        }
        Ok(km)
    }
}

} // verus!

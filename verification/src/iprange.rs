//! IPv4 network expressions: parsing of bare addresses, CIDR prefixes
//! and dotted netmasks into a `(base, mask)` pair, and deterministic
//! ascending enumeration of every address a range contains.
use crate::text::all_digits;
use crate::text::chars_of;
use crate::text::decimal_value_capped;
use crate::text::digits_in_range;
use crate::text::digits_val;
use crate::text::is_digit;
use crate::text::match_at;
use crate::text::one_char_vec;
use crate::text::split_all;
use crate::text::split_pat;
use crate::text::string_from_chars;
use crate::text::push_char;
use crate::text::first_match;
use crate::text::lemma_first_match;
use vstd::arithmetic::power2::pow2;
use vstd::arithmetic::power2::lemma_pow2_adds;
use vstd::arithmetic::power2::lemma_pow2_pos;
use vstd::arithmetic::power2::lemma2_to64;
use vstd::bits::lemma_u64_shl_is_mul;
use vstd::prelude::*;

verus! {

/// How a network expression fails to parse.  Each variant carries the
/// text it complains about, as the caller wrote it.
#[derive(Debug, Clone, PartialEq, Eq)]
pub enum NetError {
    UnsupportedFormat(String),
    InvalidAddress(String),
    InvalidPrefix(String),
    InvalidNetmask(String),
}

/// The abstract result of reading a network expression.
pub enum ParsedNet {
    Net { base: u32, mask: u32 },
    BadFormat { text: Seq<char> },
    BadAddress { text: Seq<char> },
    BadPrefix { text: Seq<char> },
    BadNetmask { text: Seq<char> },
}

/// The pieces of `s` split on `/`.
pub open spec fn slash_parts(s: Seq<char>) -> Seq<Seq<char>> {
    split_pat(s, seq!['/'])
}

/// The pieces of `s` split on `.`.
pub open spec fn dot_parts(s: Seq<char>) -> Seq<Seq<char>> {
    split_pat(s, seq!['.'])
}

/// Four dot-separated digit runs: the shape of a dotted quad.
pub open spec fn quad_shaped(s: Seq<char>) -> bool {
    dot_parts(s).len() == 4 && forall|i: int|
        0 <= i < 4 ==> all_digits(#[trigger] dot_parts(s)[i])
}

/// Every group of the dotted quad values at most 255.
pub open spec fn octets_ok(s: Seq<char>) -> bool {
    forall|i: int| 0 <= i < 4 ==> digits_val(#[trigger] dot_parts(s)[i]) <= 255
}

/// Numeric value of a dotted quad, most significant octet first.
pub open spec fn quad_val(s: Seq<char>) -> int {
    let p = dot_parts(s);
    digits_val(p[0]) * 0x1000000 + digits_val(p[1]) * 0x10000 + digits_val(p[2]) * 0x100
        + digits_val(p[3])
}

/// The netmask whose leftmost `n` bits are set.
pub open spec fn mask_of_prefix(n: int) -> u32 {
    (0x1_0000_0000 - pow2((32 - n) as nat)) as u32
}

/// What any network expression means: the first shape that fits, in
/// the order dotted netmask, CIDR prefix, bare address, decides; the
/// failing component decides the error.
pub open spec fn parse_outcome(s: Seq<char>) -> ParsedNet {
    let parts = slash_parts(s);
    if parts.len() == 2 && quad_shaped(parts[0]) && quad_shaped(parts[1]) {
        if !octets_ok(parts[0]) {
            ParsedNet::BadAddress { text: parts[0] }
        } else if !octets_ok(parts[1]) {
            ParsedNet::BadNetmask { text: parts[1] }
        } else {
            let m = quad_val(parts[1]) as u32;
            ParsedNet::Net { base: (quad_val(parts[0]) as u32) & m, mask: m }
        }
    } else if parts.len() == 2 && quad_shaped(parts[0]) && all_digits(parts[1]) {
        if !octets_ok(parts[0]) {
            ParsedNet::BadAddress { text: parts[0] }
        } else if digits_val(parts[1]) > 32 {
            ParsedNet::BadPrefix { text: parts[1] }
        } else {
            let m = mask_of_prefix(digits_val(parts[1]));
            ParsedNet::Net { base: (quad_val(parts[0]) as u32) & m, mask: m }
        }
    } else if parts.len() == 1 && quad_shaped(parts[0]) {
        if !octets_ok(parts[0]) {
            ParsedNet::BadAddress { text: parts[0] }
        } else {
            ParsedNet::Net { base: quad_val(parts[0]) as u32, mask: 0xFFFF_FFFFu32 }
        }
    } else {
        ParsedNet::BadFormat { text: s }
    }
}

/// The error value `e` reports the failure that the model `m` names,
/// with the same offending text.
pub open spec fn error_matches(e: NetError, m: ParsedNet) -> bool {
    match (e, m) {
        (NetError::UnsupportedFormat(t), ParsedNet::BadFormat { text }) => t@ == text,
        (NetError::InvalidAddress(t), ParsedNet::BadAddress { text }) => t@ == text,
        (NetError::InvalidPrefix(t), ParsedNet::BadPrefix { text }) => t@ == text,
        (NetError::InvalidNetmask(t), ParsedNet::BadNetmask { text }) => t@ == text,
        _ => false,
    }
}

/// Everything `from_str` promises about its result.
pub open spec fn from_str_post(s: Seq<char>, r: Result<Ipv4Network, NetError>) -> bool {
    match r {
        Ok(n) => parse_outcome(s) matches ParsedNet::Net { base, mask } && n.network == base
            && n.netmask == mask,
        Err(e) => !(parse_outcome(s) is Net) && error_matches(e, parse_outcome(s)),
    }
}

/// An IPv4 range as a mask-aligned base address and a netmask.
#[derive(Debug, Clone, Copy, PartialEq, Eq, Structural)]
pub struct Ipv4Network {
    pub network: u32,
    pub netmask: u32,
}

/// Enumerates the addresses of a range in ascending order; counters
/// are kept wide so that the bound is exact even at the top address.
#[derive(Debug, Clone, Copy)]
pub struct Ipv4NetworkIterator {
    pub current: u64,
    pub max: u64,
}

/// Masking with `m` never enlarges a value, and is idempotent.
proof fn lemma_mask_bound(a: u32, m: u32)
    by (bit_vector)
    ensures
        a & m <= m,
        (a & m) & m == (a & m),
{
}

impl Ipv4NetworkIterator {
    /// The base is mask-aligned.
    pub open spec fn wf(self) -> bool {
        self.max <= 0xFFFF_FFFF && self.current <= self.max + 1
    }

    /// The addresses this iterator will still yield.
    pub open spec fn remaining_seq(self) -> Seq<u32> {
        if self.current <= self.max {
            Seq::new((self.max + 1 - self.current) as nat, |i: int| (self.current + i) as u32)
        } else {
            Seq::empty()
        }
    }

    /// How many addresses are left.
    pub fn remaining(&self) -> (n: u64)
        requires
            self.wf(),
        ensures
            n == self.remaining_seq().len(),
    {
        if self.current <= self.max {
            self.max + 1 - self.current
        } else {
            0
        }
    }

    /// The next address, smallest first; `None` once exhausted.
    pub fn next(&mut self) -> (r: Option<u32>)
        requires
            old(self).wf(),
        ensures
            final(self).wf(),
            match r {
                Some(x) => old(self).remaining_seq().len() > 0 && x == old(self).remaining_seq()[0]
                    && final(self).remaining_seq() == old(self).remaining_seq().skip(1),
                None => old(self).remaining_seq().len() == 0 && *final(self) == *old(self),
            },
    {
        if self.current <= self.max {
            let c = self.current;
            self.current = self.current + 1;
            proof {
                assert(final(self).remaining_seq() =~= old(self).remaining_seq().skip(1));
            }
            Some(c as u32)
        } else {
            None
        }
    }
}

impl Ipv4Network {
    /// The base carries no bits outside the mask.
    pub open spec fn wf(self) -> bool {
        self.network & self.netmask == self.network
    }

    /// Exact number of addresses in the range.
    pub open spec fn size_spec(self) -> nat {
        (0xFFFF_FFFFu32 - self.netmask + 1) as nat
    }

    /// Every address of the range, ascending from the base.
    pub open spec fn iter_seq(self) -> Seq<u32> {
        Seq::new(self.size_spec(), |i: int| (self.network + i) as u32)
    }

    /// A range from a base and a netmask; the base is aligned to the
    /// mask, as any parsed range is.
    pub fn new(network: u32, netmask: u32) -> (r: Ipv4Network)
        ensures
            r.network == network & netmask,
            r.netmask == netmask,
            r.wf(),
    {
        proof {
            lemma_mask_bound(network, netmask);
        }
        Ipv4Network { network: network & netmask, netmask }
    }

    /// Parses a network expression: `A.B.C.D/E.F.G.H` (dotted
    /// netmask), `A.B.C.D/N` (CIDR prefix) or `A.B.C.D` (one host),
    /// tried in that order; anything else is refused.
    pub fn from_str(expr: &str) -> (r: Result<Ipv4Network, NetError>)
        ensures
            from_str_post(expr@, r),
            r matches Ok(n) ==> n.wf(),
    {
        let v = chars_of(expr);
        let slash = one_char_vec('/');
        let parts = split_all(&v, &slash);
        proof {
            assert(parts@.map_values(|p: Vec<char>| p@) =~= slash_parts(expr@));
            assert(forall|i: int|
                0 <= i < parts@.len() ==> #[trigger] parts@[i]@ == slash_parts(expr@)[i]);
        }
        if parts.len() == 2 {
            let left_quad = check_quad(&parts[0]);
            let right_quad = check_quad(&parts[1]);
            if left_quad && right_quad {
                // dotted netmask form
                match quad_value(&parts[0]) {
                    None => Err(NetError::InvalidAddress(string_from_chars(&parts[0]))),
                    Some(addr) => match quad_value(&parts[1]) {
                        None => Err(NetError::InvalidNetmask(string_from_chars(&parts[1]))),
                        Some(mask) => Ok(Ipv4Network::new(addr, mask)),
                    },
                }
            } else if left_quad && digits_in_range(&parts[1], 0, parts[1].len()) {
                // CIDR prefix form
                proof {
                    assert(parts@[1]@.subrange(0, parts@[1]@.len() as int) =~= parts@[1]@);
                }
                match quad_value(&parts[0]) {
                    None => Err(NetError::InvalidAddress(string_from_chars(&parts[0]))),
                    Some(addr) => {
                        match decimal_value_capped(&parts[1], 0, parts[1].len(), 32) {
                            None => Err(NetError::InvalidPrefix(string_from_chars(&parts[1]))),
                            Some(p) => Ok(Ipv4Network::new(addr, prefix_mask(p))),
                        }
                    },
                }
            } else {
                Err(NetError::UnsupportedFormat(expr.to_owned()))
            }
        } else if parts.len() == 1 {
            if check_quad(&parts[0]) {
                match quad_value(&parts[0]) {
                    None => Err(NetError::InvalidAddress(string_from_chars(&parts[0]))),
                    Some(addr) => {
                        proof {
                            lemma_mask_bound(addr, 0xFFFF_FFFFu32);
                            assert(addr & 0xFFFF_FFFFu32 == addr) by (bit_vector);
                        }
                        Ok(Ipv4Network::new(addr, 0xFFFF_FFFFu32))
                    },
                }
            } else {
                Err(NetError::UnsupportedFormat(expr.to_owned()))
            }
        } else {
            Err(NetError::UnsupportedFormat(expr.to_owned()))
        }
    }

    /// A fresh iterator over every address of the range, ascending.
    pub fn iter(&self) -> (it: Ipv4NetworkIterator)
        requires
            self.wf(),
        ensures
            it.wf(),
            it.remaining_seq() == self.iter_seq(),
    {
        proof {
            lemma_mask_bound(self.network, self.netmask);
            assert(self.network & self.netmask <= self.netmask);
        }
        let it = Ipv4NetworkIterator {
            current: self.network as u64,
            max: self.network as u64 + (0xFFFF_FFFFu64 - self.netmask as u64),
        };
        proof {
            assert(it.remaining_seq() =~= self.iter_seq());
        }
        it
    }
}

/// Whether `p` has the shape of a dotted quad.
fn check_quad(p: &Vec<char>) -> (r: bool)
    ensures
        r == quad_shaped(p@),
{
    let dot = one_char_vec('.');
    let groups = split_all(p, &dot);
    proof {
        assert(groups@.map_values(|g: Vec<char>| g@) =~= dot_parts(p@));
        assert(forall|i: int|
            0 <= i < groups@.len() ==> #[trigger] groups@[i]@ == dot_parts(p@)[i]);
    }
    if groups.len() != 4 {
        return false;
    }
    let mut i: usize = 0;
    while i < 4
        invariant
            i <= 4,
            groups@.len() == 4,
            forall|j: int| 0 <= j < i ==> all_digits(#[trigger] dot_parts(p@)[j]),
        decreases 4 - i,
    {
        let g = &groups[i];
        proof {
            assert(g@.subrange(0, g@.len() as int) =~= g@);
        }
        if !digits_in_range(g, 0, g.len()) {
            return false;
        }
        i = i + 1;
    }
    true
}

/// Value of a quad-shaped string, or `None` when an octet is out of
/// range.
fn quad_value(p: &Vec<char>) -> (r: Option<u32>)
    requires
        quad_shaped(p@),
    ensures
        match r {
            Some(x) => octets_ok(p@) && x == quad_val(p@),
            None => !octets_ok(p@),
        },
{
    let dot = one_char_vec('.');
    let groups = split_all(p, &dot);
    proof {
        assert(groups@.map_values(|g: Vec<char>| g@) =~= dot_parts(p@));
        assert(forall|i: int|
            0 <= i < groups@.len() ==> #[trigger] groups@[i]@ == dot_parts(p@)[i]);
    }
    proof {
        assert(groups@[0]@.subrange(0, groups@[0]@.len() as int) =~= groups@[0]@);
        assert(groups@[1]@.subrange(0, groups@[1]@.len() as int) =~= groups@[1]@);
        assert(groups@[2]@.subrange(0, groups@[2]@.len() as int) =~= groups@[2]@);
        assert(groups@[3]@.subrange(0, groups@[3]@.len() as int) =~= groups@[3]@);
    }
    let v0 = match decimal_value_capped(&groups[0], 0, groups[0].len(), 255) {
        Some(x) => x,
        None => {
            return None;
        },
    };
    let v1 = match decimal_value_capped(&groups[1], 0, groups[1].len(), 255) {
        Some(x) => x,
        None => {
            return None;
        },
    };
    let v2 = match decimal_value_capped(&groups[2], 0, groups[2].len(), 255) {
        Some(x) => x,
        None => {
            return None;
        },
    };
    let v3 = match decimal_value_capped(&groups[3], 0, groups[3].len(), 255) {
        Some(x) => x,
        None => {
            return None;
        },
    };
    proof {
        assert forall|i: int| 0 <= i < 4 implies digits_val(#[trigger] dot_parts(p@)[i])
            <= 255 by {
            assert(dot_parts(p@)[0] == groups@[0]@);
            assert(dot_parts(p@)[1] == groups@[1]@);
            assert(dot_parts(p@)[2] == groups@[2]@);
            assert(dot_parts(p@)[3] == groups@[3]@);
        }
    }
    Some(v0 * 0x1000000 + v1 * 0x10000 + v2 * 0x100 + v3)
}

/// The mask with the leftmost `n` bits set.
fn prefix_mask(n: u32) -> (m: u32)
    requires
        n <= 32,
    ensures
        m == mask_of_prefix(n as int),
{
    let shift: u64 = (32 - n) as u64;
    proof {
        lemma2_to64();
        lemma_pow2_pos(shift as nat);
        assert(pow2(shift as nat) <= pow2(32)) by {
            if shift < 32 {
                lemma_pow2_adds(shift as nat, (32 - shift) as nat);
                lemma_pow2_pos((32 - shift) as nat);
                assert(pow2(32) == pow2(shift as nat) * pow2((32 - shift) as nat));
                assert(pow2(shift as nat) * 1 <= pow2(shift as nat) * pow2((32 - shift) as nat))
                    by (nonlinear_arith)
                    requires
                        pow2(shift as nat) >= 0,
                        pow2((32 - shift) as nat) >= 1,
                ;
            }
        }
        lemma_u64_shl_is_mul(1u64, shift);
    }
    let low: u64 = (1u64 << shift) - 1;
    let m64: u64 = 0xFFFF_FFFFu64 - low;
    m64 as u32
}


/// The character of one decimal digit.
pub open spec fn dec_digit(d: int) -> char {
    (48 + d) as char
}

/// Decimal representation of an octet value, no leading zeros.
pub open spec fn dec_rep(n: int) -> Seq<char> {
    if n < 10 {
        seq![dec_digit(n)]
    } else if n < 100 {
        seq![dec_digit(n / 10), dec_digit(n % 10)]
    } else {
        seq![dec_digit(n / 100), dec_digit((n / 10) % 10), dec_digit(n % 10)]
    }
}

/// Dotted-quad representation of a 32-bit address.
pub open spec fn dotted(a: u32) -> Seq<char> {
    dec_rep(a as int / 0x1000000) + seq!['.'] + dec_rep((a as int / 0x10000) % 256) + seq!['.']
        + dec_rep((a as int / 256) % 256) + seq!['.'] + dec_rep(a as int % 256)
}

/// The character of the digit `d`.
fn digit_char(d: u32) -> (c: char)
    requires
        d <= 9,
    ensures
        c == dec_digit(d as int),
{
    ((48 + d) as u8) as char
}

/// Appends the decimal form of one octet.
fn push_octet(s: &mut String, o: u32)
    requires
        o <= 255,
    ensures
        final(s)@ == old(s)@ + dec_rep(o as int),
{
    if o >= 100 {
        push_char(s, digit_char(o / 100));
        push_char(s, digit_char((o / 10) % 10));
        push_char(s, digit_char(o % 10));
        proof {
            assert(final(s)@ =~= old(s)@ + dec_rep(o as int));
        }
    } else if o >= 10 {
        push_char(s, digit_char(o / 10));
        push_char(s, digit_char(o % 10));
        proof {
            assert(final(s)@ =~= old(s)@ + dec_rep(o as int));
        }
    } else {
        push_char(s, digit_char(o));
        proof {
            assert(final(s)@ =~= old(s)@ + dec_rep(o as int));
        }
    }
}

/// The dotted form of an address, exactly as `dotted` spells it.
pub fn format_ipv4(a: u32) -> (s: String)
    ensures
        s@ == dotted(a),
{
    let mut s = String::new();
    push_octet(&mut s, a / 0x1000000);
    push_char(&mut s, '.');
    push_octet(&mut s, (a / 0x10000) % 256);
    push_char(&mut s, '.');
    push_octet(&mut s, (a / 256) % 256);
    push_char(&mut s, '.');
    push_octet(&mut s, a % 256);
    proof {
        assert(s@ =~= dotted(a));
    }
    s
}

/// The prefix mask is a valid `u32` and its zero part is `2^(32-p)`.
proof fn lemma_prefix_mask_value(p: int)
    requires
        0 <= p <= 32,
    ensures
        1 <= pow2((32 - p) as nat),
        pow2((32 - p) as nat) <= 0x1_0000_0000,
        mask_of_prefix(p) == 0x1_0000_0000 - pow2((32 - p) as nat),
{
    lemma2_to64();
    lemma_pow2_pos((32 - p) as nat);
    if p > 0 {
        lemma_pow2_adds((32 - p) as nat, p as nat);
        lemma_pow2_pos(p as nat);
        assert(pow2(32) == pow2((32 - p) as nat) * pow2(p as nat));
        assert(pow2((32 - p) as nat) * 1 <= pow2((32 - p) as nat) * pow2(p as nat))
            by (nonlinear_arith)
            requires
                pow2((32 - p) as nat) >= 0,
                pow2(p as nat) >= 1,
        ;
    }
}

/// For a range with a CIDR prefix mask, iteration yields exactly
/// `2^(32-p)` addresses, strictly ascending, the first being the base
/// and the last the base with every host bit set.
pub proof fn lemma_cidr_iteration(n: Ipv4Network, p: int)
    requires
        0 <= p <= 32,
        n.wf(),
        n.netmask == mask_of_prefix(p),
    ensures
        n.iter_seq().len() == pow2((32 - p) as nat),
        n.iter_seq()[0] == n.network,
        n.iter_seq()[n.iter_seq().len() - 1] == n.network + pow2((32 - p) as nat) - 1,
        forall|i: int, j: int|
            0 <= i < j < n.iter_seq().len() ==> n.iter_seq()[i] < n.iter_seq()[j],
{
    lemma_prefix_mask_value(p);
    lemma_mask_bound(n.network, n.netmask);
    assert(n.network <= n.netmask);
    let size = n.size_spec();
    assert(size == pow2((32 - p) as nat));
    assert forall|i: int| 0 <= i < size implies n.iter_seq()[i] == n.network + i by {
        assert(n.network + i <= 0xFFFF_FFFF);
    }
}

/// A digit run holds no separator, so splitting on one is a no-op.
proof fn lemma_digits_no_sep(s: Seq<char>, sep: char)
    requires
        all_digits(s),
        !is_digit(sep),
    ensures
        split_pat(s, seq![sep]) == seq![s],
{
    lemma_first_match(s, seq![sep]);
    match first_match(s, seq![sep]) {
        Some(i) => {
            assert(match_at(s, seq![sep], i as int));
            assert(s.subrange(i as int, i + 1 as int)[0] == s[i as int]);
            assert(s[i as int] == sep);
            assert(is_digit(s[i as int]));
            assert(false);
        },
        None => {
        },
    }
}

/// A dotted-netmask expression and a CIDR expression with the same
/// address part and the same mask value parse to the same outcome.
pub proof fn lemma_netmask_cidr_agree(s1: Seq<char>, s2: Seq<char>)
    requires
        slash_parts(s1).len() == 2,
        slash_parts(s2).len() == 2,
        slash_parts(s1)[0] == slash_parts(s2)[0],
        quad_shaped(slash_parts(s1)[0]),
        quad_shaped(slash_parts(s1)[1]),
        octets_ok(slash_parts(s1)[1]),
        all_digits(slash_parts(s2)[1]),
        digits_val(slash_parts(s2)[1]) <= 32,
        quad_val(slash_parts(s1)[1]) == mask_of_prefix(digits_val(slash_parts(s2)[1])),
    ensures
        parse_outcome(s1) == parse_outcome(s2),
{
    let mq = slash_parts(s1)[1];
    let pd = slash_parts(s2)[1];
    lemma_digits_no_sep(pd, '.');
    assert(dot_parts(pd).len() == 1);
    assert(!quad_shaped(pd));
    lemma_digits_val_nonneg_pub(pd);
    if octets_ok(slash_parts(s1)[0]) {
        assert(parse_outcome(s1) matches ParsedNet::Net { base, mask } && mask == quad_val(
            mq,
        ) as u32);
    }
}

/// The value of a digit run is never negative.
proof fn lemma_digits_val_nonneg_pub(s: Seq<char>)
    requires
        all_digits(s),
    ensures
        digits_val(s) >= 0,
    decreases s.len(),
{
    if s.len() > 0 {
        let t = s.take(s.len() - 1);
        assert(all_digits(t) || t.len() == 0) by {
            if t.len() > 0 {
                assert(forall|i: int| 0 <= i < t.len() ==> is_digit(#[trigger] t[i]));
            }
        }
        if t.len() == 0 {
            assert(digits_val(t) == 0);
        } else {
            lemma_digits_val_nonneg_pub(t);
        }
        assert(is_digit(s[s.len() - 1]));
        assert(digits_val(t) * 10 >= 0) by (nonlinear_arith)
            requires
                digits_val(t) >= 0,
        ;
    }
}

/// Parsing is repeatable: two results that satisfy the parse contract
/// for the same expression are the same range, and a fresh iterator
/// over each yields the same sequence of addresses.
pub proof fn lemma_parse_restartable(
    s: Seq<char>,
    r1: Result<Ipv4Network, NetError>,
    r2: Result<Ipv4Network, NetError>,
)
    requires
        from_str_post(s, r1),
        from_str_post(s, r2),
    ensures
        (r1 is Ok) == (r2 is Ok),
        r1 matches Ok(n1) ==> r2 matches Ok(n2) && n1 == n2 && n1.iter_seq() == n2.iter_seq(),
{
}


/// For every valid CIDR expression, the parse succeeds and a fresh
/// iterator yields exactly `2^(32-N)` addresses in strictly ascending
/// order, the first the masked base and the last the base with every
/// host bit set.
pub proof fn lemma_cidr_parse_iteration(s: Seq<char>, r: Result<Ipv4Network, NetError>)
    requires
        from_str_post(s, r),
        slash_parts(s).len() == 2,
        quad_shaped(slash_parts(s)[0]),
        octets_ok(slash_parts(s)[0]),
        all_digits(slash_parts(s)[1]),
        digits_val(slash_parts(s)[1]) <= 32,
    ensures
        r is Ok,
        ({
            let n = r->Ok_0;
            let p = digits_val(slash_parts(s)[1]);
            &&& n.iter_seq().len() == pow2((32 - p) as nat)
            &&& n.iter_seq()[0] == n.network
            &&& n.iter_seq()[n.iter_seq().len() - 1] == n.network + pow2((32 - p) as nat) - 1
            &&& forall|i: int, j: int|
                0 <= i < j < n.iter_seq().len() ==> n.iter_seq()[i] < n.iter_seq()[j]
        }),
{
    lemma_digits_no_sep(slash_parts(s)[1], '.');
    assert(!quad_shaped(slash_parts(s)[1]));
    lemma_digits_val_nonneg_pub(slash_parts(s)[1]);
    let p = digits_val(slash_parts(s)[1]);
    assert(parse_outcome(s) matches ParsedNet::Net { base, mask } && mask == mask_of_prefix(p));
    let n = r->Ok_0;
    assert(n.wf()) by {
        lemma_mask_bound(quad_val(slash_parts(s)[0]) as u32, mask_of_prefix(p));
    }
    lemma_cidr_iteration(n, p);
}

/// As `lemma_netmask_cidr_agree`, carried through the parser: the
/// dotted-netmask spelling and the CIDR spelling of one range parse
/// to the same `(base, mask)` pair.
pub proof fn lemma_netmask_cidr_parse_agree(
    s1: Seq<char>,
    s2: Seq<char>,
    r1: Result<Ipv4Network, NetError>,
    r2: Result<Ipv4Network, NetError>,
)
    requires
        from_str_post(s1, r1),
        from_str_post(s2, r2),
        slash_parts(s1).len() == 2,
        slash_parts(s2).len() == 2,
        slash_parts(s1)[0] == slash_parts(s2)[0],
        quad_shaped(slash_parts(s1)[0]),
        quad_shaped(slash_parts(s1)[1]),
        octets_ok(slash_parts(s1)[1]),
        all_digits(slash_parts(s2)[1]),
        digits_val(slash_parts(s2)[1]) <= 32,
        quad_val(slash_parts(s1)[1]) == mask_of_prefix(digits_val(slash_parts(s2)[1])),
    ensures
        (r1 is Ok) == (r2 is Ok),
        r1 matches Ok(n1) ==> r2 matches Ok(n2) && n1 == n2,
{
    lemma_netmask_cidr_agree(s1, s2);
}

} // verus!

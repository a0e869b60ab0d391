//! Bounded text: lines and pages of fixed capacity.
//!
//! A text takes pieces one after another while they fit. A write is a list of pieces; it
//! stops at the first that does not fit, and the next write starts afresh.

use vstd::prelude::*;
use vstd::string::StringSliceAdditionalSpecFns;

use crate::wire::{octets_of, Ipv4Address, Ipv4Cidr};

verus! {

/// What can be written.
#[derive(Clone, Copy)]
pub enum Piece<'a> {
    /// A string.
    Str(&'a str),
    /// A decimal number.
    Num(u64),
    /// A byte as two hexadecimal digits.
    Hex2(u8),
    /// A number as at least four hexadecimal digits.
    Hex4(u32),
    /// A number as eight upper-case hexadecimal digits.
    Hex8(u32),
    /// An address, dotted.
    Ip(Ipv4Address),
    /// A subnet, dotted, with its prefix length.
    Net(Ipv4Cidr),
    /// A hardware address, `aa:bb:cc:dd:ee:ff`.
    Mac([u8; 6]),
}

/// The decimal digits of a number.
pub open spec fn dec(n: nat) -> Seq<u8>
    decreases n,
{
    if n < 10 {
        seq![(48 + n) as u8]
    } else {
        dec(n / 10).push((48 + n % 10) as u8)
    }
}

/// A hexadecimal digit.
pub open spec fn hex_digit(d: nat, upper: bool) -> u8 {
    if d < 10 {
        (48 + d) as u8
    } else if upper {
        (55 + d) as u8
    } else {
        (87 + d) as u8
    }
}

/// The hexadecimal digits of a number.
pub open spec fn hex(n: nat, upper: bool) -> Seq<u8>
    decreases n,
{
    if n < 16 {
        seq![hex_digit(n, upper)]
    } else {
        hex(n / 16, upper).push(hex_digit(n % 16, upper))
    }
}

/// `n` pieces of one zero digit each.
pub open spec fn zero_pieces(n: int) -> Seq<Seq<u8>> {
    Seq::new(
        if n > 0 {
            n as nat
        } else {
            0
        },
        |i: int| seq![48u8],
    )
}

/// A hexadecimal number padded to `width` digits: each padding digit is a piece.
pub open spec fn padded_hex(n: nat, width: int, upper: bool) -> Seq<Seq<u8>> {
    zero_pieces(width - hex(n, upper).len()).push(hex(n, upper))
}

/// The two hexadecimal digits of a byte.
pub open spec fn two_hex(b: u8) -> Seq<u8> {
    seq![hex_digit((b / 16) as nat, false), hex_digit((b % 16) as nat, false)]
}

/// A hardware address as text.
pub open spec fn mac_text(m: Seq<u8>) -> Seq<u8> {
    two_hex(m[0]) + seq![58u8] + two_hex(m[1]) + seq![58u8] + two_hex(m[2]) + seq![58u8] + two_hex(
        m[3],
    ) + seq![58u8] + two_hex(m[4]) + seq![58u8] + two_hex(m[5])
}

/// The pieces of a dotted address.
pub open spec fn ip_pieces(ip: Ipv4Address) -> Seq<Seq<u8>> {
    let o = octets_of(ip);
    seq![
        dec(o[0] as nat),
        seq![46u8],
        dec(o[1] as nat),
        seq![46u8],
        dec(o[2] as nat),
        seq![46u8],
        dec(o[3] as nat),
    ]
}

/// The pieces something is written in.
pub open spec fn pieces_of(p: Piece) -> Seq<Seq<u8>> {
    match p {
        Piece::Str(s) => seq![s.spec_bytes()],
        Piece::Num(n) => seq![dec(n as nat)],
        Piece::Hex2(b) => padded_hex(b as nat, 2, false),
        Piece::Hex4(n) => padded_hex(n as nat, 4, false),
        Piece::Hex8(n) => padded_hex(n as nat, 8, true),
        Piece::Ip(ip) => ip_pieces(ip),
        Piece::Net(net) => ip_pieces(net.address) + seq![seq![47u8], dec(net.prefix_len as nat)],
        Piece::Mac(m) => seq![mac_text(m@)],
    }
}

/// The pieces a list is written in.
pub open spec fn flat(ps: Seq<Piece>) -> Seq<Seq<u8>>
    decreases ps.len(),
{
    if ps.len() == 0 {
        Seq::empty()
    } else {
        flat(ps.drop_last()) + pieces_of(ps.last())
    }
}

/// A text of capacity `cap` after a write: pieces are appended while they fit. Also
/// whether all did.
pub open spec fn run(t: Seq<u8>, cap: int, ps: Seq<Seq<u8>>) -> (Seq<u8>, bool)
    decreases ps.len(),
{
    if ps.len() == 0 {
        (t, true)
    } else {
        let (u, ok) = run(t, cap, ps.drop_last());
        if ok && u.len() + ps.last().len() <= cap {
            (u + ps.last(), true)
        } else {
            (u, false)
        }
    }
}

/// A text after a write.
pub open spec fn written(t: Seq<u8>, cap: int, ps: Seq<Piece>) -> Seq<u8> {
    run(t, cap, flat(ps)).0
}

/// One write into an empty text.
pub open spec fn line(cap: int, ps: Seq<Piece>) -> Seq<u8> {
    written(Seq::empty(), cap, ps)
}

/// Pieces end to end.
pub open spec fn joined(ps: Seq<Seq<u8>>) -> Seq<u8>
    decreases ps.len(),
{
    if ps.len() == 0 {
        Seq::empty()
    } else {
        joined(ps.drop_last()) + ps.last()
    }
}

/// A write in two parts is the write of the whole.
proof fn lemma_run_concat(t: Seq<u8>, cap: int, a: Seq<Seq<u8>>, b: Seq<Seq<u8>>)
    ensures
        run(t, cap, a + b) == if run(t, cap, a).1 {
            run(run(t, cap, a).0, cap, b)
        } else {
            run(t, cap, a)
        },
    decreases b.len(),
{
    if b.len() == 0 {
        assert(a + b =~= a);
    } else {
        assert((a + b).drop_last() =~= a + b.drop_last());
        lemma_run_concat(t, cap, a, b.drop_last());
    }
}

/// A text never grows over its capacity, keeps what it held, and holds all of a write
/// that has room.
pub proof fn lemma_run_bounds(t: Seq<u8>, cap: int, ps: Seq<Seq<u8>>)
    requires
        t.len() <= cap,
    ensures
        t.len() <= run(t, cap, ps).0.len() <= cap,
        run(t, cap, ps).0.take(t.len() as int) == t,
        t.len() + joined(ps).len() <= cap ==> run(t, cap, ps) == (t + joined(ps), true),
        run(t, cap, ps).1 ==> run(t, cap, ps).0 == t + joined(ps),
    decreases ps.len(),
{
    if ps.len() == 0 {
        assert(t.take(t.len() as int) =~= t);
        assert(t + joined(ps) =~= t);
    } else {
        let r = ps.drop_last();
        lemma_run_bounds(t, cap, r);
        let (u, ok) = run(t, cap, r);
        assert((u + ps.last()).take(t.len() as int) =~= u.take(t.len() as int));
        assert(t + joined(ps) =~= t + joined(r) + ps.last());
    }
}

/// A text of fixed capacity.
pub struct Text {
    pub bytes: Vec<u8>,
    pub cap: usize,
}

impl View for Text {
    type V = Seq<u8>;

    open spec fn view(&self) -> Seq<u8> {
        self.bytes@
    }
}

impl Text {
    /// The text fits its capacity.
    pub open spec fn wf(&self) -> bool {
        self.bytes@.len() <= self.cap
    }

    /// An empty text.
    pub fn new(cap: usize) -> (r: Text)
        ensures
            r.wf(),
            r@ == Seq::<u8>::empty(),
            r.cap == cap,
    {
        Text { bytes: Vec::new(), cap }
    }

    /// The bytes of the text.
    pub fn as_bytes(&self) -> (r: &[u8])
        ensures
            r@ == self@,
    {
        self.bytes.as_slice()
    }

    /// Append a piece if it fits.
    fn put(&mut self, piece: &[u8]) -> (ok: bool)
        requires
            old(self).wf(),
        ensures
            final(self).wf(),
            final(self).cap == old(self).cap,
            ok == (old(self)@.len() + piece@.len() <= old(self).cap),
            ok ==> final(self)@ == old(self)@ + piece@,
            !ok ==> final(self)@ == old(self)@,
    {
        if piece.len() > self.cap - self.bytes.len() {
            return false;
        }
        let ghost t = self@;
        let mut i: usize = 0;
        assert(t + piece@.take(0) =~= t);
        while i < piece.len()
            invariant
                i <= piece@.len(),
                self.cap == old(self).cap,
                self@ == t + piece@.take(i as int),
                t == old(self)@,
                t.len() + piece@.len() <= self.cap,
            decreases piece@.len() - i,
        {
            self.bytes.push(piece[i]);
            i = i + 1;
            assert(self@ =~= t + piece@.take(i as int));
        }
        assert(piece@.take(i as int) =~= piece@);
        true
    }

    /// Write a list: its pieces are appended while they fit.
    pub fn write(&mut self, ps: &[Piece])
        requires
            old(self).wf(),
        ensures
            final(self).wf(),
            final(self).cap == old(self).cap,
            final(self)@ == written(old(self)@, old(self).cap as int, ps@),
    {
        let list: Vec<Vec<u8>> = expand_all(ps);
        let ghost all = flat(ps@);
        let mut i: usize = 0;
        assert(all.take(0) =~= Seq::<Seq<u8>>::empty());
        while i < list.len()
            invariant
                i <= list@.len(),
                deep(list@) == all,
                all == flat(ps@),
                self.wf(),
                self.cap == old(self).cap,
                run(old(self)@, old(self).cap as int, all.take(i as int)) == (self@, true),
            decreases list@.len() - i,
        {
            proof {
                assert(all.take(i + 1).drop_last() =~= all.take(i as int));
                assert(all[i as int] == list@[i as int]@);
            }
            if !self.put(list[i].as_slice()) {
                proof {
                    assert(all.take(i + 1).last() == all[i as int]);
                    lemma_stuck(old(self)@, old(self).cap as int, all, i + 1);
                }
                return ;
            }
            i = i + 1;
        }
        assert(all.take(i as int) =~= all);
    }
}

/// A list of vectors as a list of sequences.
pub open spec fn deep(v: Seq<Vec<u8>>) -> Seq<Seq<u8>> {
    Seq::new(v.len(), |i: int| v[i]@)
}

/// Append a piece.
fn push_piece(r: &mut Vec<Vec<u8>>, p: Vec<u8>)
    ensures
        deep(final(r)@) == deep(old(r)@).push(p@),
{
    r.push(p);
    assert(deep(r@) =~= deep(old(r)@).push(p@));
}

/// The pieces of a list.
fn expand_all(ps: &[Piece]) -> (r: Vec<Vec<u8>>)
    ensures
        deep(r@) == flat(ps@),
{
    let mut r: Vec<Vec<u8>> = Vec::new();
    let mut i: usize = 0;
    assert(deep(r@) =~= Seq::<Seq<u8>>::empty());
    assert(flat(ps@.take(0)) =~= Seq::<Seq<u8>>::empty());
    while i < ps.len()
        invariant
            i <= ps@.len(),
            deep(r@) == flat(ps@.take(i as int)),
        decreases ps@.len() - i,
    {
        expand(&ps[i], &mut r);
        assert(ps@.take(i + 1).drop_last() =~= ps@.take(i as int));
        i = i + 1;
    }
    assert(ps@.take(i as int) =~= ps@);
    r
}

/// A piece of one byte.
fn one(b: u8) -> (r: Vec<u8>)
    ensures
        r@ == seq![b],
{
    let mut r: Vec<u8> = Vec::new();
    r.push(b);
    assert(r@ =~= seq![b]);
    r
}

/// Append the pieces of a dotted address.
fn expand_ip(ip: Ipv4Address, r: &mut Vec<Vec<u8>>)
    ensures
        deep(final(r)@) == deep(old(r)@) + ip_pieces(ip),
{
    let o: [u8; 4] = ip.octets();
    push_piece(r, dec_bytes(o[0] as u64));
    push_piece(r, one(46));
    push_piece(r, dec_bytes(o[1] as u64));
    push_piece(r, one(46));
    push_piece(r, dec_bytes(o[2] as u64));
    push_piece(r, one(46));
    push_piece(r, dec_bytes(o[3] as u64));
    assert(deep(r@) =~= deep(old(r)@) + ip_pieces(ip));
}

/// Append the pieces of a hexadecimal number of at least `width` digits.
fn expand_hex(n: u32, width: usize, upper: bool, r: &mut Vec<Vec<u8>>)
    requires
        width <= 8,
    ensures
        deep(final(r)@) == deep(old(r)@) + padded_hex(n as nat, width as int, upper),
{
    let digits: Vec<u8> = hex_bytes(n, upper);
    let pad: usize = if digits.len() < width {
        width - digits.len()
    } else {
        0
    };
    let ghost r0 = deep(r@);
    let mut i: usize = 0;
    assert(r0 + zero_pieces(0) =~= r0);
    while i < pad
        invariant
            i <= pad,
            deep(r@) == r0 + zero_pieces(i as int),
        decreases pad - i,
    {
        push_piece(r, one(48));
        i = i + 1;
        assert(zero_pieces(i as int) =~= zero_pieces(i - 1).push(seq![48u8]));
        assert(deep(r@) =~= r0 + zero_pieces(i as int));
    }
    proof {
        assert(zero_pieces(width - hex(n as nat, upper).len()) =~= zero_pieces(pad as int));
    }
    push_piece(r, digits);
    assert(deep(r@) =~= r0 + padded_hex(n as nat, width as int, upper));
}

/// A hardware address as text.
fn mac_bytes(m: &[u8; 6]) -> (r: Vec<u8>)
    ensures
        r@ == mac_text(m@),
{
    let mut r: Vec<u8> = Vec::new();
    let mut i: usize = 0;
    while i < 6
        invariant
            i <= 6,
            r@ == mac_prefix(m@, i as int),
        decreases 6 - i,
    {
        if i > 0 {
            r.push(58);
        }
        r.push(hex_char((m[i] / 16) as u32, false));
        r.push(hex_char((m[i] % 16) as u32, false));
        i = i + 1;
        assert(r@ =~= mac_prefix(m@, i as int));
    }
    proof {
        reveal_with_fuel(mac_prefix, 7);
        assert(r@ =~= mac_text(m@));
    }
    r
}

/// The first `n` bytes of a hardware address as text.
spec fn mac_prefix(m: Seq<u8>, n: int) -> Seq<u8>
    decreases n,
{
    if n <= 0 {
        Seq::empty()
    } else if n == 1 {
        two_hex(m[0])
    } else {
        mac_prefix(m, n - 1) + seq![58u8] + two_hex(m[n - 1])
    }
}

/// Append the pieces of one thing.
fn expand(p: &Piece, r: &mut Vec<Vec<u8>>)
    ensures
        deep(final(r)@) == deep(old(r)@) + pieces_of(*p),
{
    let ghost r0 = deep(r@);
    match p {
        Piece::Str(s) => {
            let v: Vec<u8> = vstd::slice::slice_to_vec(s.as_bytes());
            push_piece(r, v);
        },
        Piece::Num(n) => {
            push_piece(r, dec_bytes(*n));
        },
        Piece::Hex2(b) => {
            expand_hex(*b as u32, 2, false, r);
        },
        Piece::Hex4(n) => {
            expand_hex(*n, 4, false, r);
        },
        Piece::Hex8(n) => {
            expand_hex(*n, 8, true, r);
        },
        Piece::Ip(ip) => {
            expand_ip(*ip, r);
        },
        Piece::Net(net) => {
            expand_ip(net.address, r);
            push_piece(r, one(47));
            push_piece(r, dec_bytes(net.prefix_len as u64));
        },
        Piece::Mac(m) => {
            push_piece(r, mac_bytes(m));
        },
    }
    assert(deep(r@) =~= r0 + pieces_of(*p));
}

/// The decimal digits of a number.
fn dec_bytes(n: u64) -> (r: Vec<u8>)
    ensures
        r@ == dec(n as nat),
    decreases n,
{
    if n < 10 {
        let mut r: Vec<u8> = Vec::new();
        r.push(48 + n as u8);
        r
    } else {
        let mut r: Vec<u8> = dec_bytes(n / 10);
        r.push(48 + (n % 10) as u8);
        r
    }
}

/// A hexadecimal digit.
fn hex_char(d: u32, upper: bool) -> (r: u8)
    requires
        d < 16,
    ensures
        r == hex_digit(d as nat, upper),
{
    if d < 10 {
        48 + d as u8
    } else if upper {
        55 + d as u8
    } else {
        87 + d as u8
    }
}

/// The hexadecimal digits of a number.
fn hex_bytes(n: u32, upper: bool) -> (r: Vec<u8>)
    ensures
        r@ == hex(n as nat, upper),
    decreases n,
{
    if n < 16 {
        let mut r: Vec<u8> = Vec::new();
        r.push(hex_char(n, upper));
        r
    } else {
        let mut r: Vec<u8> = hex_bytes(n / 16, upper);
        r.push(hex_char(n % 16, upper));
        r
    }
}

/// A write that has stopped stays where it is.
proof fn lemma_stuck(t: Seq<u8>, cap: int, ps: Seq<Seq<u8>>, n: int)
    requires
        0 <= n <= ps.len(),
        !run(t, cap, ps.take(n)).1,
    ensures
        run(t, cap, ps) == run(t, cap, ps.take(n)),
    decreases ps.len() - n,
{
    lemma_run_concat(t, cap, ps.take(n), ps.skip(n));
    assert(ps.take(n) + ps.skip(n) =~= ps);
}

/// The number that decimal digits spell.
pub open spec fn dec_value(s: Seq<u8>) -> int
    decreases s.len(),
{
    if s.len() == 0 {
        0
    } else {
        10 * dec_value(s.drop_last()) + (s.last() - 48)
    }
}

/// A number is written in decimal digits that spell it, without zeros in front.
pub proof fn lemma_decimal(n: nat)
    ensures
        dec_value(dec(n)) == n,
        dec(n).len() > 0,
        forall|i: int| 0 <= i < dec(n).len() ==> 48 <= #[trigger] dec(n)[i] <= 57,
        n > 0 ==> dec(n)[0] != 48,
        n < 10 ==> dec(n).len() == 1,
    decreases n,
{
    let s = dec(n);
    if n < 10 {
        assert(s.drop_last() =~= Seq::empty());
        reveal_with_fuel(dec_value, 2);
    } else {
        lemma_decimal(n / 10);
        assert(s.drop_last() =~= dec(n / 10));
        assert(s[0] == dec(n / 10)[0]);
        assert forall|i: int| 0 <= i < s.len() implies 48 <= #[trigger] s[i] <= 57 by {
            if i < s.len() - 1 {
                assert(s[i] == dec(n / 10)[i]);
            }
        }
    }
}

/// The value of a hexadecimal digit.
pub open spec fn digit_value(c: u8) -> int {
    if 48 <= c <= 57 {
        c - 48
    } else if 65 <= c <= 70 {
        c - 55
    } else {
        c - 87
    }
}

/// The number that hexadecimal digits spell.
pub open spec fn hex_value(s: Seq<u8>) -> int
    decreases s.len(),
{
    if s.len() == 0 {
        0
    } else {
        16 * hex_value(s.drop_last()) + digit_value(s.last())
    }
}

/// A hexadecimal digit, in one case of letters.
pub open spec fn is_digit(c: u8, upper: bool) -> bool {
    48 <= c <= 57 || upper && 65 <= c <= 70 || !upper && 97 <= c <= 102
}

/// A number is written in hexadecimal digits that spell it, with letters of one case.
pub proof fn lemma_hexadecimal(n: nat, upper: bool)
    ensures
        hex_value(hex(n, upper)) == n,
        hex(n, upper).len() > 0,
        forall|i: int|
            0 <= i < hex(n, upper).len() ==> is_digit(#[trigger] hex(n, upper)[i], upper),
        n > 0 ==> hex(n, upper)[0] != 48,
    decreases n,
{
    let s = hex(n, upper);
    if n < 16 {
        assert(s.drop_last() =~= Seq::empty());
        reveal_with_fuel(hex_value, 2);
    } else {
        lemma_hexadecimal(n / 16, upper);
        assert(s.drop_last() =~= hex(n / 16, upper));
        assert(s[0] == hex(n / 16, upper)[0]);
        assert forall|i: int| 0 <= i < s.len() implies is_digit(#[trigger] s[i], upper) by {
            if i < s.len() - 1 {
                assert(s[i] == hex(n / 16, upper)[i]);
            }
        }
    }
}

/// Digits are padded with zeros in front, up to the width and no further, and spell the same
/// number.
pub proof fn lemma_padded(n: nat, width: int, upper: bool)
    ensures
        ({
            let ps = padded_hex(n, width, upper);
            let digits = hex(n, upper);
            &&& ps.last() == digits
            &&& forall|i: int| 0 <= i < ps.len() - 1 ==> #[trigger] ps[i] == seq![48u8]
            &&& joined(ps).len() == if digits.len() < width {
                width
            } else {
                digits.len() as int
            }
            &&& hex_value(joined(ps)) == n
        }),
{
    let digits = hex(n, upper);
    let z = zero_pieces(width - digits.len());
    let ps = padded_hex(n, width, upper);
    assert(ps.drop_last() =~= z);
    lemma_zeros(z.len() as int);
    lemma_hexadecimal(n, upper);
    lemma_zeros_in_front(joined(z), digits);
    assert(z =~= zero_pieces(z.len() as int));
}

proof fn lemma_zeros(n: int)
    requires
        n >= 0,
    ensures
        joined(zero_pieces(n)).len() == n,
        forall|i: int| 0 <= i < n ==> #[trigger] joined(zero_pieces(n))[i] == 48,
    decreases n,
{
    if n > 0 {
        assert(zero_pieces(n).drop_last() =~= zero_pieces(n - 1));
        lemma_zeros(n - 1);
    }
}

proof fn lemma_zeros_in_front(z: Seq<u8>, s: Seq<u8>)
    requires
        forall|i: int| 0 <= i < z.len() ==> #[trigger] z[i] == 48,
    ensures
        hex_value(z + s) == hex_value(s),
    decreases z.len() + s.len(),
{
    if s.len() > 0 {
        assert((z + s).drop_last() =~= z + s.drop_last());
        lemma_zeros_in_front(z, s.drop_last());
    } else if z.len() > 0 {
        assert(z + s =~= z);
        assert(z.drop_last() + s =~= z.drop_last());
        lemma_zeros_in_front(z.drop_last(), s);
        assert(z.last() == z[z.len() - 1]);
    } else {
        assert(z + s =~= s);
    }
}

/// A byte is written in two digits that spell it.
pub proof fn lemma_two_digits(b: u8)
    ensures
        two_hex(b).len() == 2,
        hex_value(two_hex(b)) == b,
        is_digit(two_hex(b)[0], false),
        is_digit(two_hex(b)[1], false),
{
    reveal_with_fuel(hex_value, 3);
    assert(two_hex(b).drop_last().drop_last() =~= Seq::empty());
}

/// A hardware address is written in six pairs of digits, each spelling its byte, with colons
/// between them.
pub proof fn lemma_mac_text(m: Seq<u8>)
    requires
        m.len() == 6,
    ensures
        mac_text(m).len() == 17,
        forall|i: int| 0 <= i < 5 ==> #[trigger] mac_text(m)[3 * i + 2] == 58,
        forall|i: int|
            0 <= i < 6 ==> hex_value(#[trigger] mac_text(m).subrange(3 * i, 3 * i + 2)) == m[i],
{
    let t = mac_text(m);
    assert forall|i: int| 0 <= i < 6 implies hex_value(
        #[trigger] t.subrange(3 * i, 3 * i + 2),
    ) == m[i] by {
        assert(t.subrange(3 * i, 3 * i + 2) =~= two_hex(m[i]));
        lemma_two_digits(m[i]);
    }
    assert forall|i: int| 0 <= i < 5 implies #[trigger] t[3 * i + 2] == 58 by {}
}

/// An address is written in four decimal numbers, its octets, with dots between them.
pub proof fn lemma_dotted(ip: Ipv4Address)
    ensures
        ip_pieces(ip).len() == 7,
        forall|i: int|
            0 <= i < 4 ==> dec_value(#[trigger] ip_pieces(ip)[2 * i]) == octets_of(ip)[i],
        forall|i: int| 0 <= i < 3 ==> #[trigger] ip_pieces(ip)[2 * i + 1] == seq![46u8],
{
    let o = octets_of(ip);
    lemma_decimal(o[0] as nat);
    lemma_decimal(o[1] as nat);
    lemma_decimal(o[2] as nat);
    lemma_decimal(o[3] as nat);
    assert forall|i: int| 0 <= i < 4 implies dec_value(#[trigger] ip_pieces(ip)[2 * i])
        == octets_of(ip)[i] by {
        assert(i == 0 || i == 1 || i == 2 || i == 3);
    }
    assert forall|i: int| 0 <= i < 3 implies #[trigger] ip_pieces(ip)[2 * i + 1] == seq![46u8] by {
        assert(i == 0 || i == 1 || i == 2);
    }
}

/// How each thing is written: a string as it is, numbers by the digits that spell them, a
/// byte in two of them and wider ones in at least four or in eight, a subnet as its address,
/// a slash and the length of its prefix.
pub proof fn lemma_written_as(p: Piece)
    ensures
        match p {
            Piece::Str(s) => joined(pieces_of(p)) == s.spec_bytes(),
            Piece::Num(n) => dec_value(joined(pieces_of(p))) == n,
            Piece::Hex2(b) => hex_value(joined(pieces_of(p))) == b && joined(pieces_of(p)).len()
                >= 2,
            Piece::Hex4(n) => hex_value(joined(pieces_of(p))) == n && joined(pieces_of(p)).len()
                >= 4,
            Piece::Hex8(n) => hex_value(joined(pieces_of(p))) == n && joined(pieces_of(p)).len()
                >= 8,
            Piece::Ip(ip) => pieces_of(p) == ip_pieces(ip),
            Piece::Net(net) => {
                &&& pieces_of(p).len() == 9
                &&& pieces_of(p).take(7) == ip_pieces(net.address)
                &&& pieces_of(p)[7] == seq![47u8]
                &&& dec_value(pieces_of(p)[8]) == net.prefix_len
            },
            Piece::Mac(m) => joined(pieces_of(p)) == mac_text(m@),
        },
{
    match p {
        Piece::Str(s) => lemma_joined_one(s.spec_bytes()),
        Piece::Num(n) => {
            lemma_joined_one(dec(n as nat));
            lemma_decimal(n as nat);
        },
        Piece::Hex2(b) => lemma_padded(b as nat, 2, false),
        Piece::Hex4(n) => lemma_padded(n as nat, 4, false),
        Piece::Hex8(n) => lemma_padded(n as nat, 8, true),
        Piece::Ip(ip) => {},
        Piece::Net(net) => {
            lemma_decimal(net.prefix_len as nat);
            assert(pieces_of(p).take(7) =~= ip_pieces(net.address));
        },
        Piece::Mac(m) => lemma_joined_one(mac_text(m@)),
    }
}

proof fn lemma_joined_one(s: Seq<u8>)
    ensures
        joined(seq![s]) == s,
{
    assert(seq![s].drop_last() =~= Seq::empty());
    reveal_with_fuel(joined, 2);
    assert(Seq::<u8>::empty() + s =~= s);
}

/// A write takes the pieces in turn and stops at the first that does not fit: what is
/// written is what was there and the pieces up to that one, and it is complete exactly where
/// there is none.
pub proof fn lemma_write_stops(t: Seq<u8>, cap: int, ps: Seq<Seq<u8>>) -> (k: int)
    requires
        t.len() <= cap,
    ensures
        0 <= k <= ps.len(),
        run(t, cap, ps).0 == t + joined(ps.take(k)),
        run(t, cap, ps).1 <==> k == ps.len(),
        k < ps.len() ==> t.len() + joined(ps.take(k)).len() + ps[k].len() > cap,
        t.len() + joined(ps.take(k)).len() <= cap,
    decreases ps.len(),
{
    if ps.len() == 0 {
        assert(t + joined(ps.take(0)) =~= t);
        0
    } else {
        let rest = ps.drop_last();
        let k = lemma_write_stops(t, cap, rest);
        assert(rest.take(k) =~= ps.take(k));
        if k == rest.len() {
            assert(ps.take(k) =~= rest);
            if run(t, cap, ps).1 {
                assert(ps.take(ps.len() as int) =~= ps);
                assert(t + joined(ps) =~= t + joined(rest) + ps.last());
                ps.len() as int
            } else {
                k
            }
        } else {
            k
        }
    }
}

/// Two writes that have room are one: what is written is the pieces of both, end to end.
pub proof fn lemma_writes_join(t: Seq<u8>, cap: int, a: Seq<Piece>, b: Seq<Piece>)
    requires
        t.len() + joined(flat(a)).len() + joined(flat(b)).len() <= cap,
    ensures
        written(t, cap, a) == t + joined(flat(a)),
        written(written(t, cap, a), cap, b) == t + joined(flat(a + b)),
        joined(flat(a + b)) == joined(flat(a)) + joined(flat(b)),
{
    lemma_run_bounds(t, cap, flat(a));
    let u = t + joined(flat(a));
    lemma_run_bounds(u, cap, flat(b));
    lemma_flat_joins(a, b);
    assert(u + joined(flat(b)) =~= t + (joined(flat(a)) + joined(flat(b))));
}

proof fn lemma_flat_joins(a: Seq<Piece>, b: Seq<Piece>)
    ensures
        joined(flat(a + b)) == joined(flat(a)) + joined(flat(b)),
    decreases b.len(),
{
    if b.len() == 0 {
        assert(a + b =~= a);
        assert(joined(flat(a)) + joined(flat(b)) =~= joined(flat(a)));
    } else {
        assert((a + b).drop_last() =~= a + b.drop_last());
        lemma_flat_joins(a, b.drop_last());
        lemma_joined_concat(flat(a + b.drop_last()), pieces_of(b.last()));
        lemma_joined_concat(flat(b.drop_last()), pieces_of(b.last()));
        assert(joined(flat(a)) + (joined(flat(b.drop_last())) + joined(pieces_of(b.last())))
            =~= joined(flat(a)) + joined(flat(b.drop_last())) + joined(pieces_of(b.last())));
    }
}

proof fn lemma_joined_concat(a: Seq<Seq<u8>>, b: Seq<Seq<u8>>)
    ensures
        joined(a + b) == joined(a) + joined(b),
    decreases b.len(),
{
    if b.len() == 0 {
        assert(a + b =~= a);
        assert(joined(a) + joined(b) =~= joined(a));
    } else {
        assert((a + b).drop_last() =~= a + b.drop_last());
        lemma_joined_concat(a, b.drop_last());
        assert(joined(a) + joined(b.drop_last()) + b.last() =~= joined(a) + (joined(b.drop_last())
            + b.last()));
    }
}

/// What is written of a list is what is written of each, one after another.
pub proof fn lemma_listed(ps: Seq<Piece>, p: Piece)
    ensures
        flat(Seq::<Piece>::empty()).len() == 0,
        flat(ps.push(p)) == flat(ps) + pieces_of(p),
{
    assert(ps.push(p).drop_last() =~= ps);
}

/// A line that fits its capacity is shown in full.
pub proof fn lemma_line_in_full(cap: int, ps: Seq<Piece>)
    requires
        0 <= cap,
    ensures
        joined(flat(ps)).len() <= cap ==> line(cap, ps) == joined(flat(ps)),
        line(cap, ps).len() <= cap,
{
    let none = Seq::<u8>::empty();
    lemma_run_bounds(none, cap, flat(ps));
    assert(none + joined(flat(ps)) =~= joined(flat(ps)));
}

} // verus!

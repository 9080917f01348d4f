//! Numbers as bytes, the least significant byte first.

use vstd::prelude::*;

verus! {

/// The `count` lowest bytes of `v`, the least significant first.
pub open spec fn little_endian(v: nat, count: nat) -> Seq<u8>
    decreases count,
{
    if count == 0 {
        Seq::empty()
    } else {
        seq![(v % 256) as u8] + little_endian(v / 256, (count - 1) as nat)
    }
}

/// The bits of `v`, read as a number without a sign.
pub open spec fn unsigned(v: i32) -> nat {
    if v < 0 {
        (v + 0x1_0000_0000) as nat
    } else {
        v as nat
    }
}

/// The bytes of `records`, one after another.
pub open spec fn joined(records: Seq<Seq<u8>>) -> Seq<u8>
    decreases records.len(),
{
    if records.len() == 0 {
        Seq::empty()
    } else {
        joined(records.drop_last()) + records.last()
    }
}

/// One record more adds its own bytes, at the end.
pub broadcast proof fn lemma_joined_with_one_more(records: Seq<Seq<u8>>, record: Seq<u8>)
    ensures
        #[trigger] joined(records.push(record)) == joined(records) + record,
{
    assert(records.push(record).drop_last() =~= records);
}

/// `count` zeros.
pub open spec fn zeros(count: nat) -> Seq<u8> {
    Seq::new(count, |i: int| 0u8)
}

/// Appends the `count` lowest bytes of `v`, the least significant first.
pub fn push_little_endian(out: &mut Vec<u8>, v: u64, count: usize)
    ensures
        final(out)@ == old(out)@ + little_endian(v as nat, count as nat),
{
    let mut rest: u64 = v;
    let mut i: usize = 0;
    assert(out@ + little_endian(v as nat, count as nat) =~= old(out)@ + little_endian(
        v as nat,
        count as nat,
    ));
    while i < count
        invariant
            0 <= i <= count,
            out@ + little_endian(rest as nat, (count - i) as nat) == old(out)@ + little_endian(
                v as nat,
                count as nat,
            ),
        decreases count - i,
    {
        let ghost before = out@;
        let ghost tail = little_endian((rest / 256) as nat, (count - i - 1) as nat);
        out.push((rest % 256) as u8);
        assert(out@ + tail =~= before + little_endian(rest as nat, (count - i) as nat));
        rest = rest / 256;
        i = i + 1;
    }
    assert(out@ + little_endian(rest as nat, 0) =~= out@);
}

/// Appends the four bytes of `v`, the least significant first.
pub fn push_i32(out: &mut Vec<u8>, v: i32)
    ensures
        final(out)@ == old(out)@ + little_endian(unsigned(v), 4),
{
    let bits: u64 = if v < 0 {
        (v as i64 + 0x1_0000_0000) as u64
    } else {
        v as u64
    };
    push_little_endian(out, bits, 4);
}

/// Appends `count` zeros.
pub fn push_zeros(out: &mut Vec<u8>, count: usize)
    ensures
        final(out)@ == old(out)@ + zeros(count as nat),
{
    let mut i: usize = 0;
    assert(out@ =~= old(out)@ + zeros(0));
    while i < count
        invariant
            0 <= i <= count,
            out@ == old(out)@ + zeros(i as nat),
        decreases count - i,
    {
        out.push(0);
        i = i + 1;
        assert(out@ =~= old(out)@ + zeros(i as nat));
    }
}

/// There are as many bytes as were asked for.
pub proof fn lemma_little_endian_len(v: nat, count: nat)
    ensures
        little_endian(v, count).len() == count,
    decreases count,
{
    if count > 0 {
        lemma_little_endian_len(v / 256, (count - 1) as nat);
    }
}

/// The bytes determine the number where it fits them.
pub proof fn lemma_little_endian_reads_back(v: nat, w: nat, count: nat)
    requires
        little_endian(v, count) == little_endian(w, count),
        v < vstd::arithmetic::power::pow(256, count),
        w < vstd::arithmetic::power::pow(256, count),
    ensures
        v == w,
    decreases count,
{
    vstd::arithmetic::power::lemma_pow0(256);
    if count > 0 {
        let less = (count - 1) as nat;
        assert(vstd::arithmetic::power::pow(256, count) == 256 * vstd::arithmetic::power::pow(256, less)) by {
            reveal(vstd::arithmetic::power::pow);
        }
        let a = little_endian(v, count);
        let b = little_endian(w, count);
        assert(a[0] == (v % 256) as u8);
        assert(b[0] == (w % 256) as u8);
        assert(a.skip(1) =~= little_endian(v / 256, less));
        assert(b.skip(1) =~= little_endian(w / 256, less));
        lemma_little_endian_reads_back(v / 256, w / 256, less);
    }
}

/// The number that bytes stand for, the least significant first.
pub open spec fn number_of(bytes: Seq<u8>) -> nat
    decreases bytes.len(),
{
    if bytes.len() == 0 {
        0
    } else {
        bytes[0] as nat + 256 * number_of(bytes.skip(1))
    }
}

/// The number that four bytes stand for, the least significant first, where the highest
/// bit is worth its negative value.
pub open spec fn signed_number_of(bytes: Seq<u8>) -> int {
    if number_of(bytes) >= 0x8000_0000 {
        number_of(bytes) - 0x1_0000_0000
    } else {
        number_of(bytes) as int
    }
}

/// The bytes of a number stand for that number, where it fits them.
pub proof fn lemma_bytes_stand_for_the_number(v: nat, count: nat)
    requires
        v < vstd::arithmetic::power::pow(256, count),
    ensures
        number_of(little_endian(v, count)) == v,
        little_endian(v, count).len() == count,
    decreases count,
{
    vstd::arithmetic::power::lemma_pow0(256);
    lemma_little_endian_len(v, count);
    if count > 0 {
        let less = (count - 1) as nat;
        assert(vstd::arithmetic::power::pow(256, count) == 256 * vstd::arithmetic::power::pow(
            256,
            less,
        )) by {
            reveal(vstd::arithmetic::power::pow);
        }
        assert(little_endian(v, count).skip(1) =~= little_endian(v / 256, less));
        lemma_bytes_stand_for_the_number(v / 256, less);
    }
}

/// Two bytes hold a number below two to the power of 16.
pub proof fn lemma_two_bytes(v: u16)
    ensures
        number_of(little_endian(v as nat, 2)) == v,
        little_endian(v as nat, 2).len() == 2,
{
    assert(vstd::arithmetic::power::pow(256, 2) == 0x1_0000) by {
        reveal_with_fuel(vstd::arithmetic::power::pow, 3);
    }
    lemma_bytes_stand_for_the_number(v as nat, 2);
}

/// Four bytes hold a number with a sign.
pub proof fn lemma_four_bytes(v: i32)
    ensures
        signed_number_of(little_endian(unsigned(v), 4)) == v,
        little_endian(unsigned(v), 4).len() == 4,
{
    assert(vstd::arithmetic::power::pow(256, 4) == 0x1_0000_0000) by {
        reveal_with_fuel(vstd::arithmetic::power::pow, 5);
    }
    lemma_bytes_stand_for_the_number(unsigned(v), 4);
}

/// Eight bytes hold a number below two to the power of 64.
pub proof fn lemma_eight_bytes(v: u64)
    ensures
        number_of(little_endian(v as nat, 8)) == v,
        little_endian(v as nat, 8).len() == 8,
{
    assert(vstd::arithmetic::power::pow(256, 8) == 0x1_0000_0000_0000_0000) by {
        reveal_with_fuel(vstd::arithmetic::power::pow, 9);
    }
    lemma_bytes_stand_for_the_number(v as nat, 8);
}

/// Zeros are bytes that are zero, and there are as many as were asked for.
pub proof fn lemma_zeros_are_zero(count: nat, i: int)
    ensures
        zeros(count).len() == count,
        0 <= i < count ==> zeros(count)[i] == 0,
{
}

/// Records one after another: the bytes of the first ones, and those of the others.
pub proof fn lemma_joined_one_after_another(a: Seq<Seq<u8>>, b: Seq<Seq<u8>>)
    ensures
        joined(a + b) == joined(a) + joined(b),
        a.len() == 1 ==> joined(a) == a[0],
    decreases b.len(),
{
    if a.len() == 1 {
        let none = Seq::<Seq<u8>>::empty();
        assert(a.drop_last() =~= none);
        assert(joined(none) + a.last() =~= a[0]);
    }
    if b.len() == 0 {
        assert(a + b =~= a);
        assert(joined(a) + joined(b) =~= joined(a));
    } else {
        assert((a + b).drop_last() =~= a + b.drop_last());
        lemma_joined_one_after_another(a, b.drop_last());
        assert(joined(a + b) =~= joined(a) + joined(b));
    }
}

} // verus!

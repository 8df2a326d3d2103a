use vstd::prelude::*;
use vstd::string::StringExecFns;

verus! {

/// The character of a decimal digit.
pub open spec fn digit_char(d: nat) -> char {
    if d == 0 {
        '0'
    } else if d == 1 {
        '1'
    } else if d == 2 {
        '2'
    } else if d == 3 {
        '3'
    } else if d == 4 {
        '4'
    } else if d == 5 {
        '5'
    } else if d == 6 {
        '6'
    } else if d == 7 {
        '7'
    } else if d == 8 {
        '8'
    } else {
        '9'
    }
}

/// The decimal digits of `n`, without leading zeros.
pub open spec fn spec_decimal(n: nat) -> Seq<char>
    decreases n,
{
    if n < 10 {
        seq![digit_char(n)]
    } else {
        spec_decimal(n / 10).push(digit_char(n % 10))
    }
}

/// `s` preceded by zeros up to `width` characters.
pub open spec fn pad_zeros(s: Seq<char>, width: nat) -> Seq<char> {
    if s.len() >= width {
        s
    } else {
        Seq::new((width - s.len()) as nat, |i: int| '0') + s
    }
}

fn digit_str(d: u64) -> (r: &'static str)
    requires
        d < 10,
    ensures
        r@ == seq![digit_char(d as nat)],
{
    if d == 0 {
        proof { reveal_strlit("0"); }
        "0"
    } else if d == 1 {
        proof { reveal_strlit("1"); }
        "1"
    } else if d == 2 {
        proof { reveal_strlit("2"); }
        "2"
    } else if d == 3 {
        proof { reveal_strlit("3"); }
        "3"
    } else if d == 4 {
        proof { reveal_strlit("4"); }
        "4"
    } else if d == 5 {
        proof { reveal_strlit("5"); }
        "5"
    } else if d == 6 {
        proof { reveal_strlit("6"); }
        "6"
    } else if d == 7 {
        proof { reveal_strlit("7"); }
        "7"
    } else if d == 8 {
        proof { reveal_strlit("8"); }
        "8"
    } else {
        proof { reveal_strlit("9"); }
        "9"
    }
}

/// Appends the decimal form of `n` to `s`, with leading zeros up to `width` digits.
pub fn append_decimal(s: &mut String, n: u64, width: usize)
    requires
        width <= 20,
    ensures
        final(s)@ == old(s)@ + pad_zeros(spec_decimal(n as nat), width as nat),
{
    // digits, least significant first
    let mut digits: Vec<u64> = Vec::new();
    let mut v: u64 = n;
    let ghost mut tail: Seq<char> = Seq::empty();
    while v >= 10
        invariant
            spec_decimal(n as nat) == spec_decimal(v as nat) + tail,
            tail.len() == digits@.len(),
            forall|i: int| 0 <= i < digits@.len() ==> #[trigger] digits@[i] < 10 && tail[tail.len() - 1 - i] == digit_char(digits@[i] as nat),
        decreases v,
    {
        let d = v % 10;
        let ghost old_tail = tail;
        proof {
            tail = seq![digit_char(d as nat)] + tail;
        }
        digits.push(d);
        v = v / 10;
        assert(spec_decimal(v as nat) + tail =~= spec_decimal(v as nat).push(digit_char(d as nat)) + old_tail);
    }
    proof {
        tail = seq![digit_char(v as nat)] + tail;
    }
    digits.push(v);
    let ghost digs = tail;
    let count = digits.len();
    let mut pad: usize = count;
    let ghost s0 = s@;
    while pad < width
        invariant
            count <= pad,
            pad <= width || pad == count,
            s@ == s0 + Seq::new((pad - count) as nat, |i: int| '0'),
        decreases width - pad,
    {
        s.append("0");
        proof { reveal_strlit("0"); }
        assert(s@ =~= s0 + Seq::new((pad + 1 - count) as nat, |i: int| '0'));
        pad = pad + 1;
    }
    let ghost s1 = s@;
    let mut i: usize = count;
    while i > 0
        invariant
            i <= count,
            count == digits@.len(),
            count == digs.len(),
            forall|j: int| 0 <= j < digits@.len() ==> #[trigger] digits@[j] < 10 && digs[digs.len() - 1 - j] == digit_char(digits@[j] as nat),
            s@ == s1 + digs.take(count - i),
        decreases i,
    {
        i = i - 1;
        s.append(digit_str(digits[i]));
        assert(s@ =~= s1 + digs.take(count - i));
    }
    assert(digs.take(count as int) =~= digs);
    assert(digs == spec_decimal(n as nat));
    if count >= width {
        assert(Seq::new((pad - count) as nat, |i: int| '0') =~= Seq::<char>::empty());
        assert(s@ =~= old(s)@ + digs);
    } else {
        assert(s@ =~= old(s)@ + (Seq::new((width - count) as nat, |i: int| '0') + digs));
    }
}

} // verus!

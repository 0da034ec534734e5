//! Decimal rendering of counts, for verdicts and reports.
use vstd::prelude::*;

verus! {

/// The decimal digit `d < 10`.
pub open spec fn digit_char(d: nat) -> char {
    seq!['0', '1', '2', '3', '4', '5', '6', '7', '8', '9'][d as int]
}

/// The decimal representation of `n`, without leading zeros.
pub open spec fn decimal(n: nat) -> Seq<char>
    decreases n,
{
    if n < 10 {
        seq![digit_char(n)]
    } else {
        decimal(n / 10).push(digit_char(n % 10))
    }
}

/// The decimal representation of `n` with a comma between each group of
/// three digits, counted from the right.
pub open spec fn grouped_decimal(n: nat) -> Seq<char>
    decreases n,
{
    if n < 1000 {
        decimal(n)
    } else {
        grouped_decimal(n / 1000) + seq![
            ',',
            digit_char((n % 1000) / 100),
            digit_char((n % 100) / 10),
            digit_char(n % 10),
        ]
    }
}

/// `[a, b, c]`: the items in decimal, separated by `", "`, in brackets.
pub open spec fn list_items(s: Seq<u64>) -> Seq<char>
    decreases s.len(),
{
    if s.len() == 0 {
        Seq::empty()
    } else if s.len() == 1 {
        decimal(s[0] as nat)
    } else {
        list_items(s.drop_last()) + seq![',', ' '] + decimal(s.last() as nat)
    }
}

pub open spec fn list_text(s: Seq<u64>) -> Seq<char> {
    seq!['['] + list_items(s) + seq![']']
}

fn digit_str(d: u64) -> (r: &'static str)
    requires
        d < 10,
    ensures
        r@ == seq![digit_char(d as nat)],
{
    proof {
        reveal_strlit("0");
        reveal_strlit("1");
        reveal_strlit("2");
        reveal_strlit("3");
        reveal_strlit("4");
        reveal_strlit("5");
        reveal_strlit("6");
        reveal_strlit("7");
        reveal_strlit("8");
        reveal_strlit("9");
    }
    match d {
        0 => "0",
        1 => "1",
        2 => "2",
        3 => "3",
        4 => "4",
        5 => "5",
        6 => "6",
        7 => "7",
        8 => "8",
        _ => "9",
    }
}

/// Append the decimal digits of `n`.
pub fn push_decimal(out: &mut String, n: u64)
    ensures
        final(out)@ == old(out)@ + decimal(n as nat),
    decreases n,
{
    if n < 10 {
        out.append(digit_str(n));
    } else {
        push_decimal(out, n / 10);
        out.append(digit_str(n % 10));
        assert(decimal(n as nat) == decimal((n / 10) as nat).push(digit_char((n % 10) as nat)));
        assert(old(out)@ + decimal(n as nat) =~= old(out)@ + decimal((n / 10) as nat) + seq![
            digit_char((n % 10) as nat),
        ]);
    }
}

/// Append `[a, b, c]`.
pub fn push_list(out: &mut String, v: &[u64])
    ensures
        final(out)@ == old(out)@ + list_text(v@),
{
    out.append("[");
    proof {
        reveal_strlit("[");
        reveal_strlit(", ");
        reveal_strlit("]");
    }
    let ghost start = old(out)@;
    let mut i: usize = 0;
    while i < v.len()
        invariant
            i <= v@.len(),
            out@ == start + seq!['['] + list_items(v@.take(i as int)),
        decreases v@.len() - i,
    {
        proof {
            reveal_strlit(", ");
        }
        if i > 0 {
            out.append(", ");
            assert(out@ == start + seq!['['] + list_items(v@.take(i as int)) + seq![',', ' ']);
        }
        push_decimal(out, v[i]);
        proof {
            let t = v@.take(i + 1);
            assert(t.drop_last() =~= v@.take(i as int));
            if i == 0 {
                assert(list_items(v@.take(0)) =~= Seq::<char>::empty());
                assert(out@ =~= start + seq!['['] + list_items(t));
            } else {
                assert(t.len() > 1);
                assert(t.last() == v@[i as int]);
                assert(list_items(t) == list_items(v@.take(i as int)) + seq![',', ' '] + decimal(
                    v@[i as int] as nat,
                ));
                assert(out@ =~= start + seq!['['] + list_items(t));
            }
        }
        i = i + 1;
    }
    assert(v@.take(v@.len() as int) =~= v@);
    out.append("]");
    assert(out@ =~= start + list_text(v@));
}

/// Render a count with thousands separators: `1234567` is `1,234,567`.
pub fn fmt(n: u64) -> (r: String)
    ensures
        r@ == grouped_decimal(n as nat),
    decreases n,
{
    if n < 1000 {
        let mut s = String::new();
        push_decimal(&mut s, n);
        s
    } else {
        let mut s = fmt(n / 1000);
        let m = n % 1000;
        s.append(",");
        s.append(digit_str(m / 100));
        s.append(digit_str((m / 10) % 10));
        s.append(digit_str(m % 10));
        proof {
            reveal_strlit(",");
            assert((n as nat % 100) / 10 == ((m / 10) % 10) as nat);
            assert(s@ =~= grouped_decimal(n as nat));
        }
        s
    }
}

} // verus!

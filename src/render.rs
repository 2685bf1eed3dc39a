//! Text form of values and rows: integers in decimal, text as it is, blobs
//! as bracketed lowercase hex, null as `NULL`, fields joined by `|`.
use vstd::prelude::*;
use vstd::string::StringExecFns;
use crate::record::{Value, ValueView};

verus! {

pub open spec fn digit_char(d: int) -> char {
    if d < 10 {
        ((('0' as int) + d) as char)
    } else {
        ((('a' as int) + d - 10) as char)
    }
}

/// The decimal digits of `n`.
pub open spec fn decimal_nat(n: nat) -> Seq<char>
    decreases n,
{
    if n < 10 {
        seq![digit_char(n as int)]
    } else {
        decimal_nat(n / 10).push(digit_char((n % 10) as int))
    }
}

/// `n` in decimal, with a leading `-` when negative.
pub open spec fn decimal(n: int) -> Seq<char> {
    if n < 0 {
        seq!['-'] + decimal_nat((-n) as nat)
    } else {
        decimal_nat(n as nat)
    }
}

/// A byte in lowercase hex, without leading zero.
pub open spec fn hex_byte(b: u8) -> Seq<char> {
    if b < 16 {
        seq![digit_char(b as int)]
    } else {
        seq![digit_char((b / 16) as int), digit_char((b % 16) as int)]
    }
}

/// Bytes in hex, separated by `, `.
pub open spec fn hex_list(bs: Seq<u8>) -> Seq<char>
    decreases bs.len(),
{
    if bs.len() == 0 {
        seq![]
    } else if bs.len() == 1 {
        hex_byte(bs[0])
    } else {
        hex_list(bs.drop_last()) + seq![',', ' '] + hex_byte(bs.last())
    }
}

/// The text form of a value.
pub open spec fn render(v: ValueView) -> Seq<char> {
    match v {
        ValueView::Int(n) => decimal(n as int),
        ValueView::Text(s) => s,
        ValueView::Blob(b) => seq!['['] + hex_list(b) + seq![']'],
        ValueView::Null => seq!['N', 'U', 'L', 'L'],
    }
}

/// Fields joined by `|`.
pub open spec fn join_fields(fs: Seq<Seq<char>>) -> Seq<char>
    decreases fs.len(),
{
    if fs.len() == 0 {
        seq![]
    } else if fs.len() == 1 {
        fs[0]
    } else {
        join_fields(fs.drop_last()) + seq!['|'] + fs.last()
    }
}

/// The one-character text of digit `d`.
fn digit_str(d: u64) -> (r: &'static str)
    requires
        d < 16,
    ensures
        r@ == seq![digit_char(d as int)],
{
    proof {
        reveal_strlit("0");
        reveal_strlit("1");
        reveal_strlit("2");
        reveal_strlit("3");
        reveal_strlit("4");
        reveal_strlit("5");
        reveal_strlit("6");
        reveal_strlit("7");
        reveal_strlit("8");
        reveal_strlit("9");
        reveal_strlit("a");
        reveal_strlit("b");
        reveal_strlit("c");
        reveal_strlit("d");
        reveal_strlit("e");
        reveal_strlit("f");
    }
    let r = if d == 0 {
        "0"
    } else if d == 1 {
        "1"
    } else if d == 2 {
        "2"
    } else if d == 3 {
        "3"
    } else if d == 4 {
        "4"
    } else if d == 5 {
        "5"
    } else if d == 6 {
        "6"
    } else if d == 7 {
        "7"
    } else if d == 8 {
        "8"
    } else if d == 9 {
        "9"
    } else if d == 10 {
        "a"
    } else if d == 11 {
        "b"
    } else if d == 12 {
        "c"
    } else if d == 13 {
        "d"
    } else if d == 14 {
        "e"
    } else {
        "f"
    };
    assert(r@ =~= seq![digit_char(d as int)]);
    r
}

/// Appends the decimal digits of `n`.
fn push_decimal(out: &mut String, n: u64)
    ensures
        final(out)@ == old(out)@ + decimal_nat(n as nat),
    decreases n,
{
    if n >= 10 {
        push_decimal(out, n / 10);
    }
    out.append(digit_str(n % 10));
    proof {
        if n >= 10 {
            assert(old(out)@ + decimal_nat((n / 10) as nat) + seq![digit_char((n % 10) as int)]
                =~= old(out)@ + decimal_nat(n as nat));
        } else {
            assert(old(out)@ + seq![digit_char((n % 10) as int)] =~= old(out)@ + decimal_nat(
                n as nat,
            ));
        }
    }
}

/// A count in decimal.
pub fn count_string(n: usize) -> (r: String)
    ensures
        r@ == decimal(n as int),
{
    let mut s = String::new();
    push_decimal(&mut s, n as u64);
    assert(s@ =~= decimal(n as int));
    s
}

/// `n` in decimal.
pub fn decimal_string(n: i64) -> (r: String)
    ensures
        r@ == decimal(n as int),
{
    let mut s = String::new();
    if n < 0 {
        proof {
            reveal_strlit("-");
        }
        s.append("-");
        let m: u64 = ((-(n + 1)) as u64) + 1;
        push_decimal(&mut s, m);
    } else {
        push_decimal(&mut s, n as u64);
    }
    s
}

/// Appends a byte in hex.
fn push_hex_byte(out: &mut String, b: u8)
    ensures
        final(out)@ == old(out)@ + hex_byte(b),
{
    if b >= 16 {
        out.append(digit_str((b / 16) as u64));
    }
    out.append(digit_str((b % 16) as u64));
    proof {
        assert(final(out)@ =~= old(out)@ + hex_byte(b));
    }
}

/// The text form of a value.
pub fn render_value(v: &Value) -> (r: String)
    ensures
        r@ == render(v@),
{
    match v {
        Value::Int(n) => decimal_string(*n),
        Value::Text(s) => s.clone(),
        Value::Blob(b) => {
            proof {
                reveal_strlit("[");
                reveal_strlit("]");
                reveal_strlit(", ");
            }
            let mut s = String::new();
            s.append("[");
            let mut i: usize = 0;
            while i < b.len()
                invariant
                    i <= b@.len(),
                    s@ == seq!['['] + hex_list(b@.subrange(0, i as int)),
                decreases b.len() - i,
            {
                proof {
                    assert(b@.subrange(0, i + 1).drop_last() =~= b@.subrange(0, i as int));
                    assert(b@.subrange(0, i + 1).last() == b@[i as int]);
                }
                let ghost prev = s@;
                if i > 0 {
                    s.append(", ");
                }
                let ghost mid = s@;
                push_hex_byte(&mut s, b[i]);
                proof {
                    let sub = b@.subrange(0, i + 1);
                    if i == 0 {
                        assert(sub.len() == 1 && sub[0] == b@[0]);
                        assert(hex_list(sub) == hex_byte(b@[0]));
                        assert(s@ =~= seq!['['] + hex_list(sub));
                    } else {
                        reveal_strlit(", ");
                        assert(mid =~= prev + seq![',', ' ']);
                        assert(hex_list(sub) == hex_list(b@.subrange(0, i as int)) + seq![',', ' ']
                            + hex_byte(b@[i as int]));
                        assert(s@ =~= seq!['['] + hex_list(sub));
                    }
                }
                i = i + 1;
            }
            s.append("]");
            proof {
                assert(b@.subrange(0, b@.len() as int) =~= b@);
            }
            s
        },
        Value::Null => {
            proof {
                reveal_strlit("NULL");
            }
            let s = "NULL".to_owned();
            s
        },
    }
}

/// Fields joined by `|`.
pub fn join_strings(fs: &Vec<String>) -> (r: String)
    ensures
        r@ == join_fields(crate::schema::strings_view(fs@)),
{
    proof {
        reveal_strlit("|");
    }
    let ghost fv = crate::schema::strings_view(fs@);
    let mut s = String::new();
    let mut i: usize = 0;
    while i < fs.len()
        invariant
            i <= fs@.len(),
            fv == crate::schema::strings_view(fs@),
            s@ == join_fields(fv.subrange(0, i as int)),
        decreases fs.len() - i,
    {
        proof {
            assert(fv.subrange(0, i + 1).drop_last() =~= fv.subrange(0, i as int));
            assert(fv.subrange(0, i + 1).last() == fs@[i as int]@);
        }
        let ghost prev = s@;
        if i > 0 {
            s.append("|");
        }
        let ghost mid = s@;
        s.append(fs[i].as_str());
        proof {
            let sub = fv.subrange(0, i + 1);
            if i == 0 {
                assert(sub.len() == 1 && sub[0] == fs@[0]@);
                assert(s@ =~= join_fields(sub));
            } else {
                reveal_strlit("|");
                assert(mid =~= prev + seq!['|']);
                assert(join_fields(sub) == join_fields(fv.subrange(0, i as int)) + seq!['|']
                    + fs@[i as int]@);
                assert(s@ =~= join_fields(sub));
            }
        }
        i = i + 1;
    }
    proof {
        assert(fv.subrange(0, fv.len() as int) =~= fv);
    }
    s
}

} // verus!

use vstd::prelude::*;

verus! {

/// The decimal digit `c` stands for, where it is one.
pub open spec fn digit_value(c: char) -> int {
    c as int - '0' as int
}

pub open spec fn is_digit(c: char) -> bool {
    '0' <= c <= '9'
}

/// The number that a string of decimal digits spells.
pub open spec fn digits_value(s: Seq<char>) -> int
    decreases s.len(),
{
    if s.len() == 0 {
        0
    } else {
        digits_value(s.drop_last()) * 10 + digit_value(s.last())
    }
}

/// The digit for `d < 10`.
pub open spec fn digit_char(d: int) -> char {
    ('0' as int + d) as char
}

/// `n` in decimal, without leading zeros.
pub open spec fn decimal(n: nat) -> Seq<char>
    decreases n,
{
    if n < 10 {
        seq![digit_char(n as int)]
    } else {
        decimal(n / 10).push(digit_char((n % 10) as int))
    }
}

pub open spec fn db_suffix() -> Seq<char> {
    seq!['.', 'd', 'b']
}

/// A segment file's name: one or more decimal digits, then `.db`, where the
/// digits spell a number that fits in `u64`.
pub open spec fn is_segment_name(s: Seq<char>) -> bool {
    &&& s.len() > 3
    &&& s.subrange(s.len() - 3, s.len() as int) == db_suffix()
    &&& forall|i: int| 0 <= i < s.len() - 3 ==> is_digit(#[trigger] s[i])
    &&& digits_value(s.subrange(0, s.len() - 3)) <= u64::MAX
}

/// The generation that a segment name spells.
pub open spec fn name_generation(s: Seq<char>) -> int {
    digits_value(s.subrange(0, s.len() - 3))
}

/// The generation that the file name `name` gives a segment, where `name`
/// is the name of a segment file (`<decimal>.db`); `None` for any other file.
pub fn segment_generation(name: &str) -> (r: Option<u64>)
    ensures
        r is Some <==> is_segment_name(name@),
        r matches Some(g) ==> g == name_generation(name@),
{
    let n = name.unicode_len();
    if n <= 3 || name.get_char(n - 3) != '.' || name.get_char(n - 2) != 'd' || name.get_char(n - 1)
        != 'b' {
        proof {
            if n > 3 && name@.subrange(n - 3, n as int) == db_suffix() {
                assert(name@[n - 3] == name@.subrange(n - 3, n as int)[0]);
                assert(name@[n - 2] == name@.subrange(n - 3, n as int)[1]);
                assert(name@[n - 1] == name@.subrange(n - 3, n as int)[2]);
            }
        }
        return None;
    }
    assert(name@.subrange(n - 3, n as int) =~= db_suffix());
    let ghost digits = name@.subrange(0, n - 3);
    let mut value: u64 = 0;
    let mut i: usize = 0;
    while i < n - 3
        invariant
            n == name@.len(),
            n > 3,
            0 <= i <= n - 3,
            digits == name@.subrange(0, n - 3),
            forall|j: int| 0 <= j < i ==> is_digit(#[trigger] name@[j]),
            value == digits_value(digits.subrange(0, i as int)),
        decreases n - 3 - i,
    {
        let c = name.get_char(i);
        assert(digits.subrange(0, i + 1).drop_last() == digits.subrange(0, i as int));
        if c < '0' || c > '9' {
            return None;
        }
        let d = (c as u32 - '0' as u32) as u64;
        if value > (u64::MAX - d) / 10 {
            proof {
                assert(value * 10 + d > u64::MAX) by (nonlinear_arith)
                    requires
                        value > (u64::MAX - d) / 10,
                        d <= 9,
                ;
                assert(digits[i as int] == c);
                if forall|j: int| 0 <= j < digits.len() ==> is_digit(#[trigger] digits[j]) {
                    lemma_digits_prefix_bound(digits, i + 1);
                } else {
                    let j = choose|j: int| 0 <= j < digits.len() && !is_digit(#[trigger] digits[j]);
                    assert(name@[j] == digits[j]);
                }
            }
            return None;
        }
        value = value * 10 + d;
        i += 1;
    }
    assert(digits.subrange(0, (n - 3) as int) == digits);
    Some(value)
}

/// Strictly increasing.
pub open spec fn ascending(s: Seq<u64>) -> bool {
    forall|i: int, j: int| 0 <= i < j < s.len() ==> s[i] < s[j]
}

/// Inserts `g` into the ascending `v`, unless it is there already.
pub(crate) fn insert_sorted(v: &mut Vec<u64>, g: u64)
    requires
        ascending(old(v)@),
    ensures
        ascending(final(v)@),
        forall|x: u64| final(v)@.contains(x) <==> (old(v)@.contains(x) || x == g),
{
    let mut i: usize = 0;
    while i < v.len() && v[i] < g
        invariant
            0 <= i <= v.len(),
            v@ == old(v)@,
            forall|j: int| 0 <= j < i ==> v@[j] < g,
        decreases v.len() - i,
    {
        i += 1;
    }
    if i < v.len() && v[i] == g {
        return;
    }
    let ghost o = v@;
    v.insert(i, g);
    proof {
        assert(v@ == o.insert(i as int, g));
        assert(v@.len() == o.len() + 1);
        assert(v@[i as int] == g);
        assert(forall|j: int| 0 <= j < i ==> v@[j] == o[j]);
        assert(forall|j: int| i < j < v@.len() ==> v@[j] == o[j - 1]);
        assert forall|x: u64| v@.contains(x) <==> (o.contains(x) || x == g) by {
            if o.contains(x) {
                let j = choose|j: int| 0 <= j < o.len() && o[j] == x;
                if j < i {
                    assert(v@[j] == x);
                } else {
                    assert(v@[j + 1] == x);
                }
            }
            if v@.contains(x) {
                let j = choose|j: int| 0 <= j < v@.len() && v@[j] == x;
                if j < i {
                    assert(o[j] == x);
                } else if j > i {
                    assert(o[j - 1] == x);
                }
            }
        }
        assert forall|a: int, b: int| 0 <= a < b < v@.len() implies v@[a] < v@[b] by {
            if i < o.len() {
                assert(o[i as int] > g);
            }
            if a < i && b > i {
                if i < o.len() {
                    assert(o[a] < o[i as int] || a == i);
                }
            }
        }
    }
}

/// The generations of the segment files among the file names `names`,
/// ascending, each once.
pub fn db_list(names: &Vec<String>) -> (r: Vec<u64>)
    ensures
        ascending(r@),
        forall|g: u64| #[trigger] r@.contains(g) <==> exists|i: int|
            0 <= i < names@.len() && is_segment_name(#[trigger] names@[i]@) && name_generation(
                names@[i]@,
            ) == g,
{
    let mut list: Vec<u64> = Vec::new();
    let mut i: usize = 0;
    while i < names.len()
        invariant
            0 <= i <= names@.len(),
            ascending(list@),
            forall|g: u64| #[trigger] list@.contains(g) <==> exists|j: int|
                0 <= j < i && is_segment_name(#[trigger] names@[j]@) && name_generation(names@[j]@)
                    == g,
        decreases names@.len() - i,
    {
        if let Some(g) = segment_generation(names[i].as_str()) {
            insert_sorted(&mut list, g);
            proof {
                assert forall|x: u64| #[trigger] list@.contains(x) <==> exists|j: int|
                    0 <= j < i + 1 && is_segment_name(#[trigger] names@[j]@) && name_generation(
                        names@[j]@,
                    ) == x by {
                    if x == g {
                        assert(is_segment_name(names@[i as int]@));
                    }
                }
            }
        } else {
            proof {
                assert forall|x: u64| #[trigger] list@.contains(x) <==> exists|j: int|
                    0 <= j < i + 1 && is_segment_name(#[trigger] names@[j]@) && name_generation(
                        names@[j]@,
                    ) == x by {
                    if exists|j: int|
                        0 <= j < i + 1 && is_segment_name(#[trigger] names@[j]@) && name_generation(
                            names@[j]@,
                        ) == x {
                        let j = choose|j: int|
                            0 <= j < i + 1 && is_segment_name(#[trigger] names@[j]@)
                                && name_generation(names@[j]@) == x;
                        assert(j != i);
                    }
                }
            }
        }
        i += 1;
    }
    list
}

fn digit_str(d: u64) -> (r: &'static str)
    requires
        d < 10,
    ensures
        r@ == seq![digit_char(d as int)],
{
    if d == 0 {
        proof {
            reveal_strlit("0");
        }
        return "0";
    }
    if d == 1 {
        proof {
            reveal_strlit("1");
        }
        return "1";
    }
    if d == 2 {
        proof {
            reveal_strlit("2");
        }
        return "2";
    }
    if d == 3 {
        proof {
            reveal_strlit("3");
        }
        return "3";
    }
    if d == 4 {
        proof {
            reveal_strlit("4");
        }
        return "4";
    }
    if d == 5 {
        proof {
            reveal_strlit("5");
        }
        return "5";
    }
    if d == 6 {
        proof {
            reveal_strlit("6");
        }
        return "6";
    }
    if d == 7 {
        proof {
            reveal_strlit("7");
        }
        return "7";
    }
    if d == 8 {
        proof {
            reveal_strlit("8");
        }
        return "8";
    }
    proof {
        reveal_strlit("9");
    }
    "9"
}

/// `n` in decimal.
fn decimal_string(n: u64) -> (r: String)
    ensures
        r@ == decimal(n as nat),
    decreases n,
{
    if n < 10 {
        String::from_str(digit_str(n))
    } else {
        let mut s = decimal_string(n / 10);
        s.append(digit_str(n % 10));
        s
    }
}

/// The file name of the segment of generation `no`: `<no>.db`.
pub fn db_path(no: u64) -> (r: String)
    ensures
        r@ == decimal(no as nat) + db_suffix(),
        is_segment_name(r@),
        name_generation(r@) == no,
{
    let mut s = decimal_string(no);
    proof {
        reveal_strlit(".db");
    }
    s.append(".db");
    proof {
        assert(".db"@ =~= db_suffix());
        lemma_name_round_trip(no);
    }
    s
}

/// The decimal digits of `n` spell `n`.
proof fn lemma_decimal_digits(n: nat)
    ensures
        forall|i: int| 0 <= i < decimal(n).len() ==> is_digit(#[trigger] decimal(n)[i]),
        digits_value(decimal(n)) == n,
        decimal(n).len() >= 1,
    decreases n,
{
    if n < 10 {
        assert(decimal(n).drop_last() =~= Seq::<char>::empty());
        assert(digit_value(digit_char(n as int)) == n);
        assert(digits_value(decimal(n)) == digits_value(decimal(n).drop_last()) * 10 + digit_value(
            decimal(n).last(),
        ));
    } else {
        lemma_decimal_digits(n / 10);
        assert(decimal(n).drop_last() == decimal(n / 10));
        assert(digit_value(digit_char((n % 10) as int)) == n % 10);
        assert((n / 10) * 10 + n % 10 == n);
        assert(digits_value(decimal(n)) == digits_value(decimal(n).drop_last()) * 10 + digit_value(
            decimal(n).last(),
        ));
        assert(decimal(n).last() == digit_char((n % 10) as int));
    }
}

/// The name of the segment of generation `g` is a segment name, and it
/// gives `g` back.
pub proof fn lemma_name_round_trip(g: u64)
    ensures
        is_segment_name(decimal(g as nat) + db_suffix()),
        name_generation(decimal(g as nat) + db_suffix()) == g,
{
    let s = decimal(g as nat) + db_suffix();
    lemma_decimal_digits(g as nat);
    assert(s.subrange(0, s.len() - 3) =~= decimal(g as nat));
    assert(s.subrange(s.len() - 3, s.len() as int) =~= db_suffix());
    assert forall|i: int| 0 <= i < s.len() - 3 implies is_digit(#[trigger] s[i]) by {
        assert(s[i] == decimal(g as nat)[i]);
    }
}

proof fn lemma_digits_prefix_bound(s: Seq<char>, i: int)
    requires
        0 <= i <= s.len(),
        forall|j: int| 0 <= j < s.len() ==> is_digit(#[trigger] s[j]),
    ensures
        digits_value(s.subrange(0, i)) <= digits_value(s),
    decreases s.len() - i,
{
    if i < s.len() {
        lemma_digits_prefix_bound(s, i + 1);
        assert(s.subrange(0, i + 1).drop_last() == s.subrange(0, i));
        assert(is_digit(s[i]));
        lemma_digits_nonneg(s.subrange(0, i));
    } else {
        assert(s.subrange(0, i) == s);
    }
}

proof fn lemma_digits_nonneg(s: Seq<char>)
    requires
        forall|j: int| 0 <= j < s.len() ==> is_digit(#[trigger] s[j]),
    ensures
        digits_value(s) >= 0,
    decreases s.len(),
{
    if s.len() > 0 {
        let init = s.drop_last();
        assert forall|j: int| 0 <= j < init.len() implies is_digit(#[trigger] init[j]) by {
            assert(is_digit(s[j]));
        }
        lemma_digits_nonneg(init);
        assert(is_digit(s[s.len() - 1]));
    }
}

} // verus!

//! The names of the PNG files that the frames are written to.
use vstd::prelude::*;

verus! {

/// The character of the decimal digit `d`.
pub open spec fn digit_char(d: int) -> char {
    if d == 0 {
        '0'
    } else if d == 1 {
        '1'
    } else if d == 2 {
        '2'
    } else if d == 3 {
        '3'
    } else if d == 4 {
        '4'
    } else if d == 5 {
        '5'
    } else if d == 6 {
        '6'
    } else if d == 7 {
        '7'
    } else if d == 8 {
        '8'
    } else {
        '9'
    }
}

/// `n` written in decimal, without leading zeros.
pub open spec fn decimal(n: nat) -> Seq<char>
    decreases n,
{
    if n < 10 {
        seq![digit_char(n as int)]
    } else {
        decimal(n / 10).push(digit_char((n % 10) as int))
    }
}

/// `n` written in decimal, with zeros in front up to `width` characters.
pub open spec fn zero_padded(n: nat, width: nat) -> Seq<char> {
    let d = decimal(n);
    if d.len() >= width {
        d
    } else {
        Seq::new((width - d.len()) as nat, |i: int| '0') + d
    }
}

/// The file name of frame `index` of the SHP file named `stem`: the stem,
/// an underscore, the index in at least three decimal digits and `.png`.
pub open spec fn spec_frame_file_name(stem: Seq<char>, index: nat) -> Seq<char> {
    stem + seq!['_'] + zero_padded(index, 3) + seq!['.', 'p', 'n', 'g']
}

/// Decimal digits stored least significant first, written most significant
/// first.
spec fn digits_text(ds: Seq<usize>) -> Seq<char> {
    Seq::new(ds.len(), |i: int| digit_char(ds[ds.len() - 1 - i] as int))
}

fn digit_str(d: usize) -> (r: &'static str)
    requires
        d < 10,
    ensures
        r@ == seq![digit_char(d as int)],
{
    if d == 0 {
        proof {
            reveal_strlit("0");
        }
        "0"
    } else if d == 1 {
        proof {
            reveal_strlit("1");
        }
        "1"
    } else if d == 2 {
        proof {
            reveal_strlit("2");
        }
        "2"
    } else if d == 3 {
        proof {
            reveal_strlit("3");
        }
        "3"
    } else if d == 4 {
        proof {
            reveal_strlit("4");
        }
        "4"
    } else if d == 5 {
        proof {
            reveal_strlit("5");
        }
        "5"
    } else if d == 6 {
        proof {
            reveal_strlit("6");
        }
        "6"
    } else if d == 7 {
        proof {
            reveal_strlit("7");
        }
        "7"
    } else if d == 8 {
        proof {
            reveal_strlit("8");
        }
        "8"
    } else {
        proof {
            reveal_strlit("9");
        }
        "9"
    }
}

/// The file name of frame `index` of the SHP file named `stem`, such as
/// `unit_007.png`.
pub fn frame_file_name(stem: &str, index: usize) -> (r: String)
    ensures
        r@ == spec_frame_file_name(stem@, index as nat),
{
    let mut digits: Vec<usize> = Vec::new();
    let mut m: usize = index;
    while m >= 10
        invariant
            decimal(index as nat) == decimal(m as nat) + digits_text(digits@),
            forall|i: int| 0 <= i < digits@.len() ==> #[trigger] digits@[i] < 10,
        decreases m,
    {
        let ghost old_digits = digits@;
        digits.push(m % 10);
        assert(digits_text(digits@) =~= seq![digit_char((m % 10) as int)] + digits_text(
            old_digits,
        ));
        assert(decimal(m as nat) == decimal((m / 10) as nat).push(digit_char((m % 10) as int)));
        assert(decimal((m / 10) as nat) + digits_text(digits@) =~= decimal(m as nat)
            + digits_text(old_digits));
        m = m / 10;
    }
    let ghost old_digits = digits@;
    digits.push(m);
    assert(digits_text(digits@) =~= seq![digit_char(m as int)] + digits_text(old_digits));
    assert(decimal(index as nat) =~= digits_text(digits@));
    let ghost text = digits_text(digits@);

    let mut name: String = stem.to_owned();
    proof {
        reveal_strlit("_");
    }
    name.append("_");
    let ghost prefix = name@;
    assert(prefix == stem@ + seq!['_']);
    let n = digits.len();
    let mut width: usize = n;
    while width < 3
        invariant
            n <= width <= 3 || (width == n && n > 3),
            name@ == prefix + Seq::new((width - n) as nat, |i: int| '0'),
        decreases 3 - width,
    {
        proof {
            reveal_strlit("0");
        }
        name.append("0");
        width = width + 1;
        assert(name@ =~= prefix + Seq::new((width - n) as nat, |i: int| '0'));
    }
    let ghost padded = name@;
    assert(padded + text =~= prefix + zero_padded(index as nat, 3));
    let mut k: usize = n;
    assert(text.take(0) =~= Seq::<char>::empty());
    while k > 0
        invariant
            k <= n,
            n == digits@.len(),
            text == digits_text(digits@),
            forall|i: int| 0 <= i < digits@.len() ==> #[trigger] digits@[i] < 10,
            name@ == padded + text.take(n - k),
        decreases k,
    {
        k = k - 1;
        name.append(digit_str(digits[k]));
        assert(name@ =~= padded + text.take(n - k));
    }
    assert(text.take(n as int) =~= text);
    proof {
        reveal_strlit(".png");
    }
    name.append(".png");
    name
}


/// The digit characters are `'0'` to `'9'` in order.
pub proof fn lemma_digit_chars(d: int)
    requires
        0 <= d < 10,
    ensures
        digit_char(d) as int == '0' as int + d,
{
}

/// Below 1000 the index is written in exactly three digits, most
/// significant first: frame 7 of `unit` is `unit_007.png`, frame 42 is
/// `unit_042.png`.
pub proof fn lemma_three_digit_name(stem: Seq<char>, index: nat)
    requires
        index < 1000,
    ensures
        spec_frame_file_name(stem, index) == stem + seq![
            '_',
            digit_char((index / 100) as int),
            digit_char(((index / 10) % 10) as int),
            digit_char((index % 10) as int),
            '.',
            'p',
            'n',
            'g',
        ],
{
    let d = decimal(index);
    if index < 10 {
        assert(d == seq![digit_char(index as int)]);
        assert(zero_padded(index, 3) =~= seq!['0', '0', digit_char(index as int)]);
    } else if index < 100 {
        assert(decimal((index / 10) as nat) == seq![digit_char((index / 10) as int)]);
        assert(d =~= seq![digit_char((index / 10) as int), digit_char((index % 10) as int)]);
        assert(zero_padded(index, 3) =~= seq![
            '0',
            digit_char((index / 10) as int),
            digit_char((index % 10) as int),
        ]);
    } else {
        let t = (index / 10) as nat;
        assert(decimal((t / 10) as nat) == seq![digit_char((t / 10) as int)]);
        assert(decimal(t) =~= seq![digit_char((t / 10) as int), digit_char((t % 10) as int)]);
        assert(t / 10 == index / 100);
        assert(d =~= seq![
            digit_char((index / 100) as int),
            digit_char(((index / 10) % 10) as int),
            digit_char((index % 10) as int),
        ]);
    }
    assert(spec_frame_file_name(stem, index) =~= stem + seq![
        '_',
        digit_char((index / 100) as int),
        digit_char(((index / 10) % 10) as int),
        digit_char((index % 10) as int),
        '.',
        'p',
        'n',
        'g',
    ]);
}

} // verus!

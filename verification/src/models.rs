use vstd::prelude::*;

verus! {

/// How endangered a satellite is, from the highest alert level of the
/// collision analyses that involve it.
#[derive(Debug, Clone, Copy, PartialEq, Eq, Structural)]
pub enum CollisionRiskLevel {
    Safe,
    Warning,
    Danger,
}

pub open spec fn risk_level_spec(alert_level: u8) -> CollisionRiskLevel {
    if alert_level == 2 {
        CollisionRiskLevel::Danger
    } else if alert_level == 1 {
        CollisionRiskLevel::Warning
    } else {
        CollisionRiskLevel::Safe
    }
}

/// Level 2 is danger, level 1 a warning, anything else safe.
pub fn risk_level_for_alert_level(alert_level: u8) -> (r: CollisionRiskLevel)
    ensures
        r == risk_level_spec(alert_level),
{
    match alert_level {
        2 => CollisionRiskLevel::Danger,
        1 => CollisionRiskLevel::Warning,
        _ => CollisionRiskLevel::Safe,
    }
}

/// The character of decimal digit `d`.
pub open spec fn digit_char(d: nat) -> char {
    ((d + 48) as u32) as char
}

/// Decimal notation of `n`, most significant digit first, no leading zeros.
pub open spec fn decimal_digits(n: nat) -> Seq<char>
    decreases n,
{
    if n < 10 {
        seq![digit_char(n)]
    } else {
        decimal_digits(n / 10).push(digit_char(n % 10))
    }
}

/// Decimal notation of `n`, left-padded with zeros to at least `width` digits.
pub open spec fn zero_padded(n: nat, width: nat) -> Seq<char> {
    let d = decimal_digits(n);
    if d.len() < width {
        Seq::new((width - d.len()) as nat, |i: int| '0') + d
    } else {
        d
    }
}

/// `SAT-` followed by the id in at least three decimal digits.
pub open spec fn satellite_name_spec(id: u16) -> Seq<char> {
    seq!['S', 'A', 'T', '-'] + zero_padded(id as nat, 3)
}

/// The string holding the single digit `d`.
fn digit_str(d: u8) -> (s: &'static str)
    requires
        d < 10,
    ensures
        s@ == seq![digit_char(d as nat)],
{
    proof {
        reveal_strlit("0");
        reveal_strlit("1");
        reveal_strlit("2");
        reveal_strlit("3");
        reveal_strlit("4");
        reveal_strlit("5");
        reveal_strlit("6");
        reveal_strlit("7");
        reveal_strlit("8");
        reveal_strlit("9");
    }
    match d {
        0 => "0",
        1 => "1",
        2 => "2",
        3 => "3",
        4 => "4",
        5 => "5",
        6 => "6",
        7 => "7",
        8 => "8",
        _ => "9",
    }
}

/// The digit characters of a sequence of decimal digit values.
pub open spec fn digit_chars(ds: Seq<u8>) -> Seq<char> {
    ds.map_values(|d: u8| digit_char(d as nat))
}

/// Display name of a satellite: `SAT-` and its id zero-padded to three digits.
pub fn satellite_name(id: u16) -> (name: String)
    ensures
        name@ == satellite_name_spec(id),
{
    // Decimal digits of `id`, most significant first.
    let mut ds: Vec<u8> = Vec::new();
    let mut cur: u16 = id;
    assert(decimal_digits(id as nat) =~= decimal_digits(cur as nat) + digit_chars(ds@));
    while cur >= 10
        invariant
            decimal_digits(id as nat) == decimal_digits(cur as nat) + digit_chars(ds@),
            forall|i: int| 0 <= i < ds@.len() ==> #[trigger] ds@[i] < 10,
        decreases cur,
    {
        let d = (cur % 10) as u8;
        let ghost old_ds = ds@;
        ds.insert(0, d);
        proof {
            assert(digit_chars(ds@) =~= seq![digit_char(d as nat)] + digit_chars(old_ds));
            assert(decimal_digits(cur as nat) == decimal_digits((cur / 10) as nat).push(
                digit_char((cur % 10) as nat),
            ));
            assert(decimal_digits((cur / 10) as nat).push(digit_char((cur % 10) as nat))
                + digit_chars(old_ds) =~= decimal_digits((cur / 10) as nat) + digit_chars(ds@));
            assert forall|i: int| 0 <= i < ds@.len() implies #[trigger] ds@[i] < 10 by {
                if i > 0 {
                    assert(ds@[i] == old_ds[i - 1]);
                }
            }
        }
        cur = cur / 10;
    }
    let ghost old_ds = ds@;
    ds.insert(0, cur as u8);
    proof {
        assert(digit_chars(ds@) =~= seq![digit_char(cur as nat)] + digit_chars(old_ds));
        assert(decimal_digits(id as nat) =~= digit_chars(ds@));
        assert forall|i: int| 0 <= i < ds@.len() implies #[trigger] ds@[i] < 10 by {
            if i > 0 {
                assert(ds@[i] == old_ds[i - 1]);
            }
        }
    }
    let n = ds.len();
    proof {
        reveal_strlit("SAT-");
    }
    let mut name = String::from_str("SAT-");
    let pad: usize = if n < 3 { 3 - n } else { 0 };
    let mut k: usize = 0;
    assert(name@ =~= seq!['S', 'A', 'T', '-'] + Seq::new(0, |i: int| '0'));
    while k < pad
        invariant
            k <= pad,
            name@ == seq!['S', 'A', 'T', '-'] + Seq::new(k as nat, |i: int| '0'),
        decreases pad - k,
    {
        proof {
            reveal_strlit("0");
        }
        name.append("0");
        assert(name@ =~= seq!['S', 'A', 'T', '-'] + Seq::new((k + 1) as nat, |i: int| '0'));
        k = k + 1;
    }
    let ghost head = name@;
    let ghost digits = digit_chars(ds@);
    assert(name@ =~= head + digits.take(0));
    let mut j: usize = 0;
    while j < n
        invariant
            n == ds@.len(),
            digits == digit_chars(ds@),
            forall|i: int| 0 <= i < ds@.len() ==> #[trigger] ds@[i] < 10,
            j <= n,
            name@ == head + digits.take(j as int),
        decreases n - j,
    {
        let d = ds[j];
        name.append(digit_str(d));
        assert(digits[j as int] == digit_char(d as nat));
        assert(digits.take(j + 1) =~= digits.take(j as int).push(digits[j as int]));
        assert(name@ =~= head + digits.take(j + 1));
        j = j + 1;
    }
    assert(digits.take(n as int) =~= digits);
    assert(name@ =~= satellite_name_spec(id));
    name
}

/// The number a string of decimal digit characters denotes.
pub open spec fn digits_value(s: Seq<char>) -> int
    decreases s.len(),
{
    if s.len() == 0 {
        0
    } else {
        digits_value(s.drop_last()) * 10 + (s.last() as int - 48)
    }
}

proof fn lemma_digits_value_decimal(n: nat)
    ensures
        digits_value(decimal_digits(n)) == n,
    decreases n,
{
    if n < 10 {
        let s = decimal_digits(n);
        assert(s.drop_last() =~= Seq::<char>::empty());
        assert(s.last() as int == n + 48);
        assert(digits_value(s) == digits_value(s.drop_last()) * 10 + (s.last() as int - 48));
        assert(digits_value(Seq::<char>::empty()) == 0);
    } else {
        lemma_digits_value_decimal(n / 10);
        let s = decimal_digits(n);
        assert(s.drop_last() =~= decimal_digits(n / 10));
        assert(s.last() as int == n % 10 + 48);
        assert(digits_value(s) == digits_value(s.drop_last()) * 10 + (s.last() as int - 48));
        assert(digits_value(s) == (n / 10) * 10 + n % 10);
        assert((n / 10) * 10 + n % 10 == n) by (nonlinear_arith);
    }
}

proof fn lemma_zeros_value(k: nat)
    ensures
        digits_value(Seq::new(k, |i: int| '0')) == 0,
    decreases k,
{
    if k > 0 {
        lemma_zeros_value((k - 1) as nat);
        assert(Seq::new(k, |i: int| '0').drop_last() =~= Seq::new((k - 1) as nat, |i: int| '0'));
    }
}

proof fn lemma_leading_zeros_value(z: Seq<char>, d: Seq<char>)
    requires
        digits_value(z) == 0,
    ensures
        digits_value(z + d) == digits_value(d),
    decreases d.len(),
{
    if d.len() == 0 {
        assert(z + d =~= z);
    } else {
        lemma_leading_zeros_value(z, d.drop_last());
        assert((z + d).drop_last() =~= z + d.drop_last());
        assert((z + d).last() == d.last());
    }
}

/// Zero padding does not change the number denoted.
pub proof fn lemma_zero_padded_value(n: nat, width: nat)
    ensures
        digits_value(zero_padded(n, width)) == n,
{
    lemma_digits_value_decimal(n);
    let d = decimal_digits(n);
    if d.len() < width {
        lemma_zeros_value((width - d.len()) as nat);
        lemma_leading_zeros_value(Seq::new((width - d.len()) as nat, |i: int| '0'), d);
    }
}

/// Satellite names identify satellites: two satellites with the same name
/// have the same id.
pub proof fn law_satellite_names_distinct(a: u16, b: u16)
    requires
        satellite_name_spec(a) == satellite_name_spec(b),
    ensures
        a == b,
{
    let pa = zero_padded(a as nat, 3);
    let pb = zero_padded(b as nat, 3);
    assert(satellite_name_spec(a).skip(4) =~= pa);
    assert(satellite_name_spec(b).skip(4) =~= pb);
    lemma_zero_padded_value(a as nat, 3);
    lemma_zero_padded_value(b as nat, 3);
}

/// Coverage of the constellation from the number of active alerts.
pub open spec fn coverage_status_spec(active_alerts: u32) -> Seq<char> {
    if active_alerts == 0 {
        "nominal"@
    } else if active_alerts < 5 {
        "degraded"@
    } else {
        "critical"@
    }
}

/// `nominal` with no active alert, `degraded` with fewer than five,
/// `critical` otherwise.
pub fn coverage_status(active_alerts: u32) -> (s: String)
    ensures
        s@ == coverage_status_spec(active_alerts),
{
    if active_alerts == 0 {
        String::from_str("nominal")
    } else if active_alerts < 5 {
        String::from_str("degraded")
    } else {
        String::from_str("critical")
    }
}

/// The coverage status is set by thresholds on the number of active alerts:
/// "nominal" exactly when there is none, "degraded" exactly when there are
/// one to four, "critical" exactly from five on; more alerts never give a
/// better status.
pub proof fn law_coverage_thresholds(active_alerts: u32, more_alerts: u32)
    ensures
        (active_alerts == 0) <==> coverage_status_spec(active_alerts) == "nominal"@,
        (0 < active_alerts < 5) <==> coverage_status_spec(active_alerts) == "degraded"@,
        (active_alerts >= 5) <==> coverage_status_spec(active_alerts) == "critical"@,
        active_alerts <= more_alerts && coverage_status_spec(active_alerts) == "critical"@
            ==> coverage_status_spec(more_alerts) == "critical"@,
        active_alerts <= more_alerts && coverage_status_spec(active_alerts) != "nominal"@
            ==> coverage_status_spec(more_alerts) != "nominal"@,
{
    reveal_strlit("nominal");
    reveal_strlit("degraded");
    reveal_strlit("critical");
    assert("nominal"@.len() != "degraded"@.len());
    assert("nominal"@.len() != "critical"@.len());
    assert("degraded"@[0] != "critical"@[0]);
}

} // verus!

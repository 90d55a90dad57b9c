//! Application settings: a flat key-to-string mapping read back with typed
//! defaults. The storage itself is an external key-value table; this module
//! holds the typed view and the read logic that applies defaults.

use vstd::prelude::*;
use crate::text::chars_of;

verus! {

/// The typed settings of the application.
#[derive(Debug)]
pub struct Settings {
    pub theme: String,
    pub font_size: i32,
    pub font_family: String,
    pub auto_save_delay: i32,
    pub spell_check: bool,
}

/// Mathematical model of the settings.
pub ghost struct SettingsV {
    pub theme: Seq<char>,
    pub font_size: int,
    pub font_family: Seq<char>,
    pub auto_save_delay: int,
    pub spell_check: bool,
}

impl View for Settings {
    type V = SettingsV;

    open spec fn view(&self) -> SettingsV {
        SettingsV {
            theme: self.theme@,
            font_size: self.font_size as int,
            font_family: self.font_family@,
            auto_save_delay: self.auto_save_delay as int,
            spell_check: self.spell_check,
        }
    }
}

/// The defaults applied when a key is absent.
pub open spec fn default_settings() -> SettingsV {
    SettingsV {
        theme: "system"@,
        font_size: 16,
        font_family: "Inter"@,
        auto_save_delay: 500,
        spell_check: true,
    }
}

impl core::default::Default for Settings {
    /// The default settings.
    fn default() -> (r: Settings)
        ensures
            r@ == default_settings(),
    {
        Settings {
            theme: "system".to_owned(),
            font_size: 16,
            font_family: "Inter".to_owned(),
            auto_save_delay: 500,
            spell_check: true,
        }
    }
}

/// A decimal digit.
pub open spec fn is_digit(c: char) -> bool {
    ('0' as u32) <= (c as u32) <= ('9' as u32)
}

/// The value of a digit string, most significant first.
pub open spec fn digits_val(s: Seq<char>) -> int
    decreases s.len(),
{
    if s.len() == 0 {
        0
    } else {
        digits_val(s.drop_last()) * 10 + ((s.last() as u32) - ('0' as u32))
    }
}

/// A nonempty all-digit string.
pub open spec fn all_digits(s: Seq<char>) -> bool {
    s.len() > 0 && forall|i: int| 0 <= i < s.len() ==> is_digit(#[trigger] s[i])
}

/// What parsing a signed 32-bit decimal integer yields: an optional sign,
/// then digits only, with the value in range; anything else is rejected.
pub open spec fn parse_i32_spec(s: Seq<char>) -> Option<int> {
    let negative = s.len() > 0 && s[0] == '-';
    let body = if s.len() > 0 && (s[0] == '-' || s[0] == '+') {
        s.drop_first()
    } else {
        s
    };
    if !all_digits(body) {
        None
    } else {
        let v = if negative {
            -digits_val(body)
        } else {
            digits_val(body)
        };
        if -0x8000_0000 <= v <= 0x7fff_ffff {
            Some(v)
        } else {
            None
        }
    }
}

/// The value of a digit string is never negative, and never shrinks as
/// digits are appended.
proof fn lemma_digits_val_bounds(s: Seq<char>)
    requires
        forall|i: int| 0 <= i < s.len() ==> is_digit(#[trigger] s[i]),
    ensures
        digits_val(s) >= 0,
        s.len() > 0 ==> digits_val(s) >= digits_val(s.drop_last()),
    decreases s.len(),
{
    if s.len() > 0 {
        assert forall|i: int| 0 <= i < s.drop_last().len() implies is_digit(
            #[trigger] s.drop_last()[i],
        ) by {
            assert(s.drop_last()[i] == s[i]);
        }
        lemma_digits_val_bounds(s.drop_last());
    }
}

/// Once a digit prefix exceeds the 32-bit magnitude, the whole digit string
/// does too.
proof fn lemma_digits_val_grows(s: Seq<char>, i: int)
    requires
        forall|k: int| 0 <= k < s.len() ==> is_digit(#[trigger] s[k]),
        0 <= i <= s.len(),
    ensures
        digits_val(s) >= digits_val(s.take(i)),
    decreases s.len() - i,
{
    if i < s.len() {
        lemma_digits_val_grows(s, i + 1);
        assert(s.take(i + 1).drop_last() =~= s.take(i));
        assert forall|k: int| 0 <= k < s.take(i + 1).len() implies is_digit(
            #[trigger] s.take(i + 1)[k],
        ) by {
            assert(s.take(i + 1)[k] == s[k]);
        }
        lemma_digits_val_bounds(s.take(i + 1));
    } else {
        assert(s.take(i) =~= s);
    }
}

/// Parses a signed 32-bit decimal integer, exactly as the platform's
/// integer parsing accepts it: an optional sign, one or more digits, a
/// value in range.
pub fn parse_i32(s: &String) -> (r: Option<i32>)
    ensures
        match r {
            Some(x) => parse_i32_spec(s@) == Some(x as int),
            None => parse_i32_spec(s@) is None,
        },
{
    let cs = chars_of(s.as_str());
    let ghost w = s@;
    let n = cs.len();
    if n == 0 {
        return None;
    }
    let c0 = cs[0];
    let negative = c0 == '-';
    let signed = c0 == '-' || c0 == '+';
    let start: usize = if signed {
        1
    } else {
        0
    };
    let ghost body = if signed {
        w.drop_first()
    } else {
        w
    };
    proof {
        assert(body =~= w.subrange(start as int, n as int));
    }
    if n == start {
        proof {
            assert(!all_digits(body));
        }
        return None;
    }
    let mut acc: i64 = 0;
    let mut i = start;
    while i < n
        invariant
            cs@ == w,
            w == s@,
            n == w.len(),
            start <= i <= n,
            start <= 1,
            body == w.subrange(start as int, n as int),
            body == (if w.len() > 0 && (w[0] == '-' || w[0] == '+') {
                w.drop_first()
            } else {
                w
            }),
            n > start,
            0 <= acc <= 0x8000_0000,
            acc as int == digits_val(body.take(i - start)),
            forall|k: int| 0 <= k < i - start ==> is_digit(#[trigger] body[k]),
        decreases n - i,
    {
        let c = cs[i];
        let u = c as u32;
        if !(48 <= u && u <= 57) {
            proof {
                assert(body[i - start] == w[i as int]);
                assert(!is_digit(body[i - start]));
                assert(!all_digits(body));
            }
            return None;
        }
        acc = acc * 10 + ((u - 48) as i64);
        i = i + 1;
        proof {
            let j = i - 1 - start;
            assert(body[j] == w[i - 1]);
            assert(body.take(j + 1).drop_last() =~= body.take(j));
            assert(body.take(j + 1).last() == body[j]);
            assert(acc as int == digits_val(body.take(j + 1)));
        }
        if acc > 0x8000_0000 {
            proof {
                if all_digits(body) {
                    lemma_digits_val_grows(body, i - start);
                    assert(digits_val(body) >= digits_val(body.take(i - start)));
                    assert(digits_val(body) > 0x8000_0000);
                }
            }
            return None;
        }
    }
    proof {
        assert(body.take(i - start) =~= body);
        assert(all_digits(body));
    }
    if negative {
        let v = -acc;
        proof {
            assert(parse_i32_spec(w) == Some(v as int));
        }
        Some(v as i32)
    } else {
        if acc > 0x7fff_ffff {
            proof {
                assert(digits_val(body) > 0x7fff_ffff);
            }
            return None;
        }
        proof {
            assert(parse_i32_spec(w) == Some(acc as int));
        }
        Some(acc as i32)
    }
}

/// One key-value pair folded into the settings: a known key replaces its
/// field — the numeric ones only when the value parses — and an unknown key
/// is ignored.
pub open spec fn apply_pair(s: SettingsV, key: Seq<char>, value: Seq<char>) -> SettingsV {
    if key == "theme"@ {
        SettingsV { theme: value, ..s }
    } else if key == "font_size"@ {
        match parse_i32_spec(value) {
            Some(x) => SettingsV { font_size: x, ..s },
            None => s,
        }
    } else if key == "font_family"@ {
        SettingsV { font_family: value, ..s }
    } else if key == "auto_save_delay"@ {
        match parse_i32_spec(value) {
            Some(x) => SettingsV { auto_save_delay: x, ..s },
            None => s,
        }
    } else if key == "spell_check"@ {
        SettingsV { spell_check: value == "true"@, ..s }
    } else {
        s
    }
}

/// Every pair folded in, first to last.
pub open spec fn apply_pairs(s: SettingsV, ps: Seq<(Seq<char>, Seq<char>)>) -> SettingsV
    decreases ps.len(),
{
    if ps.len() == 0 {
        s
    } else {
        apply_pairs(apply_pair(s, ps[0].0, ps[0].1), ps.drop_first())
    }
}

/// The views of a sequence of key-value rows.
pub open spec fn pairs_view(v: Seq<(String, String)>) -> Seq<(Seq<char>, Seq<char>)> {
    v.map_values(|p: (String, String)| (p.0@, p.1@))
}

/// The typed settings read from stored key-value rows: defaults first, then
/// every row folded in, first to last.
pub fn settings_from_pairs(pairs: &Vec<(String, String)>) -> (r: Settings)
    ensures
        r@ == apply_pairs(default_settings(), pairs_view(pairs@)),
{
    let ghost pv = pairs_view(pairs@);
    let mut s: Settings = core::default::Default::default();
    proof {
        assert(pv.skip(0) =~= pv);
    }
    for i in 0..pairs.len()
        invariant
            pv == pairs_view(pairs@),
            apply_pairs(default_settings(), pv) == apply_pairs(s@, pv.skip(i as int)),
    {
        let ghost before = s@;
        let key = &pairs[i].0;
        let value = &pairs[i].1;
        if key.eq(&"theme".to_owned()) {
            s.theme = value.clone();
        } else if key.eq(&"font_size".to_owned()) {
            match parse_i32(value) {
                Some(x) => {
                    s.font_size = x;
                },
                None => {},
            }
        } else if key.eq(&"font_family".to_owned()) {
            s.font_family = value.clone();
        } else if key.eq(&"auto_save_delay".to_owned()) {
            match parse_i32(value) {
                Some(x) => {
                    s.auto_save_delay = x;
                },
                None => {},
            }
        } else if key.eq(&"spell_check".to_owned()) {
            s.spell_check = value.eq(&"true".to_owned());
        }
        proof {
            assert(pv[i as int] == (key@, value@));
            assert(s@ == apply_pair(before, pv[i as int].0, pv[i as int].1));
            assert(pv.skip(i as int)[0] == pv[i as int]);
            assert(pv.skip(i as int).drop_first() =~= pv.skip(i + 1));
        }
    }
    proof {
        assert(pv.skip(pairs@.len() as int) =~= Seq::<(Seq<char>, Seq<char>)>::empty());
    }
    s
}

} // verus!

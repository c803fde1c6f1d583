//! Version comparison for the updater: a version string is split on dots,
//! each numeric segment becomes one part (segments that are not a number,
//! or do not fit, are passed over), and the parts are compared position by
//! position with missing parts read as zero.

use vstd::prelude::*;

verus! {

pub open spec fn is_digit(c: char) -> bool {
    48 <= c as u32 <= 57
}

pub open spec fn digit_val(c: char) -> nat {
    (c as u32 - 48) as nat
}

pub open spec fn all_digits(seg: Seq<char>) -> bool {
    forall|i: int| 0 <= i < seg.len() ==> is_digit(#[trigger] seg[i])
}

/// The decimal value of a digit run.
pub open spec fn seg_value(seg: Seq<char>) -> nat
    decreases seg.len(),
{
    if seg.len() == 0 {
        0
    } else {
        seg_value(seg.drop_last()) * 10 + digit_val(seg.last())
    }
}

/// What one dot-separated segment contributes: its value when it is a
/// nonempty digit run that fits, nothing otherwise.
pub open spec fn parse_u32_spec(seg: Seq<char>) -> Option<u32> {
    if seg.len() > 0 && all_digits(seg) && seg_value(seg) <= u32::MAX {
        Some(seg_value(seg) as u32)
    } else {
        None
    }
}

pub open spec fn opt_part(o: Option<u32>) -> Seq<u32> {
    match o {
        Some(x) => seq![x],
        None => Seq::empty(),
    }
}

/// The numeric parts of a version string, scanned left to right with the
/// current segment accumulated.
pub open spec fn version_parts_acc(s: Seq<char>, i: int, cur: Seq<char>) -> Seq<u32>
    decreases s.len() - i,
{
    if i >= s.len() {
        opt_part(parse_u32_spec(cur))
    } else if s[i] == '.' {
        opt_part(parse_u32_spec(cur)) + version_parts_acc(s, i + 1, Seq::empty())
    } else {
        version_parts_acc(s, i + 1, cur.push(s[i]))
    }
}

pub open spec fn version_parts(s: Seq<char>) -> Seq<u32> {
    version_parts_acc(s, 0, Seq::empty())
}

/// Position-by-position comparison with missing parts read as zero.
pub open spec fn cmp_from(a: Seq<u32>, b: Seq<u32>, i: int) -> int
    decreases a.len() + b.len() - i,
{
    if i >= a.len() && i >= b.len() {
        0
    } else {
        let x: u32 = if 0 <= i < a.len() {
            a[i]
        } else {
            0
        };
        let y: u32 = if 0 <= i < b.len() {
            b[i]
        } else {
            0
        };
        if x < y {
            -1
        } else if x > y {
            1
        } else {
            cmp_from(a, b, i + 1)
        }
    }
}

/// Appending a digit multiplies the value by ten and adds the digit.
proof fn lemma_seg_value_push(seg: Seq<char>, c: char)
    ensures
        seg_value(seg.push(c)) == seg_value(seg) * 10 + digit_val(c),
{
    assert(seg.push(c).drop_last() =~= seg);
    assert(seg.push(c).last() == c);
}

/// Once a digit run's value is over the bound, appending digits keeps it
/// over the bound.
proof fn lemma_seg_value_monotone(seg: Seq<char>, c: char)
    ensures
        seg_value(seg.push(c)) >= seg_value(seg),
{
    lemma_seg_value_push(seg, c);
}

/// Collect the numeric parts of a version string.
fn version_parts_exec(v: &str) -> (r: Vec<u32>)
    ensures
        r@ == version_parts(v@),
{
    let n = v.unicode_len();
    let mut parts: Vec<u32> = Vec::new();
    let mut val: u32 = 0;
    let mut seg_len: usize = 0;
    let mut bad = false;
    let ghost mut cur: Seq<char> = Seq::empty();
    let mut i: usize = 0;
    while i < n
        invariant
            n == v@.len(),
            i <= n,
            seg_len <= i,
            seg_len == cur.len(),
            !bad ==> all_digits(cur) && seg_value(cur) == val,
            bad ==> !(all_digits(cur) && seg_value(cur) <= u32::MAX),
            version_parts(v@) == parts@ + version_parts_acc(v@, i as int, cur),
        decreases n - i,
    {
        let c = v.get_char(i);
        if c == '.' {
            if seg_len > 0 && !bad {
                parts.push(val);
                proof {
                    assert(parse_u32_spec(cur) == Some(val));
                    assert(parts@ =~= parts@.drop_last().push(val));
                    assert(parts@.drop_last() + (seq![val] + version_parts_acc(
                        v@,
                        i + 1,
                        Seq::empty(),
                    )) =~= parts@ + version_parts_acc(v@, i + 1, Seq::empty()));
                }
            } else {
                proof {
                    assert(parse_u32_spec(cur) is None);
                    assert(parts@ + (Seq::<u32>::empty() + version_parts_acc(
                        v@,
                        i + 1,
                        Seq::empty(),
                    )) =~= parts@ + version_parts_acc(v@, i + 1, Seq::empty()));
                }
            }
            val = 0;
            seg_len = 0;
            bad = false;
            proof {
                cur = Seq::empty();
            }
        } else {
            let cu = c as u32;
            if 48 <= cu && cu <= 57 {
                if !bad {
                    let d = cu - 48;
                    let wide: u64 = (val as u64) * 10 + (d as u64);
                    if wide > u32::MAX as u64 {
                        bad = true;
                        proof {
                            lemma_seg_value_push(cur, c);
                        }
                    } else {
                        val = wide as u32;
                        proof {
                            lemma_seg_value_push(cur, c);
                        }
                    }
                } else {
                    proof {
                        lemma_seg_value_monotone(cur, c);
                        if all_digits(cur.push(c)) {
                            assert(all_digits(cur)) by {
                                assert(forall|j: int|
                                    0 <= j < cur.len() ==> #[trigger] cur[j] == cur.push(c)[j]);
                            }
                        }
                    }
                }
            } else {
                bad = true;
                proof {
                    assert(!is_digit(cur.push(c)[cur.len() as int]));
                }
            }
            seg_len = seg_len + 1;
            proof {
                cur = cur.push(c);
            }
        }
        i += 1;
    }
    if seg_len > 0 && !bad {
        parts.push(val);
        proof {
            assert(parse_u32_spec(cur) == Some(val));
            assert(parts@ =~= parts@.drop_last() + seq![val]);
        }
    } else {
        proof {
            assert(parse_u32_spec(cur) is None);
            assert(parts@ + Seq::<u32>::empty() =~= parts@);
        }
    }
    parts
}

/// Compare two semver-style version strings. Returns -1, 0 or 1 as the
/// first orders below, equal to, or above the second.
pub fn compare_versions(v1: String, v2: String) -> (r: i32)
    ensures
        r == cmp_from(version_parts(v1@), version_parts(v2@), 0),
{
    let p1 = version_parts_exec(v1.as_str());
    let p2 = version_parts_exec(v2.as_str());
    let n1 = p1.len();
    let n2 = p2.len();
    let mut i: usize = 0;
    while i < n1 || i < n2
        invariant
            n1 == p1@.len(),
            n2 == p2@.len(),
            p1@ == version_parts(v1@),
            p2@ == version_parts(v2@),
            cmp_from(p1@, p2@, 0) == cmp_from(p1@, p2@, i as int),
        decreases n1 + n2 - i,
    {
        let x: u32 = if i < n1 {
            p1[i]
        } else {
            0
        };
        let y: u32 = if i < n2 {
            p2[i]
        } else {
            0
        };
        if x < y {
            return -1;
        }
        if x > y {
            return 1;
        }
        i += 1;
    }
    0
}

} // verus!

use vstd::prelude::*;

verus! {

/// ASCII white space: space, tab, line feed, vertical tab, form feed, carriage return.
pub open spec fn is_space(b: u8) -> bool {
    b == 32 || (9 <= b && b <= 13)
}

pub open spec fn is_digit(b: u8) -> bool {
    48 <= b && b <= 57
}

/// The lines of `s`, split at each line feed.
pub open spec fn split_lines(s: Seq<u8>) -> Seq<Seq<u8>>
    decreases s.len(),
{
    if s.len() == 0 {
        seq![Seq::<u8>::empty()]
    } else {
        let t = split_lines(s.drop_last());
        if s.last() == 10 {
            t.push(Seq::<u8>::empty())
        } else {
            t.update(t.len() - 1, t.last().push(s.last()))
        }
    }
}

/// The white-space separated words of `s`.
pub open spec fn words(s: Seq<u8>) -> Seq<Seq<u8>>
    decreases s.len(),
{
    if s.len() == 0 {
        Seq::<Seq<u8>>::empty()
    } else {
        let t = words(s.drop_last());
        let c = s.last();
        if is_space(c) {
            t
        } else if s.len() >= 2 && !is_space(s[s.len() - 2]) {
            t.update(t.len() - 1, t.last().push(c))
        } else {
            t.push(seq![c])
        }
    }
}

/// The value of a run of decimal digits.
pub open spec fn digits_value(s: Seq<u8>) -> int
    decreases s.len(),
{
    if s.len() == 0 {
        0
    } else {
        digits_value(s.drop_last()) * 10 + (s.last() - 48)
    }
}

/// The integer that `s` writes: an optional `+` or `-`, then one or more decimal digits.
pub open spec fn integer_of(s: Seq<u8>) -> Option<int> {
    if s.len() >= 2 && (s[0] == 43 || s[0] == 45) && (forall|i: int|
        1 <= i < s.len() ==> #[trigger] is_digit(s[i])) {
        let v = digits_value(s.drop_first());
        Some(
            if s[0] == 45 {
                -v
            } else {
                v
            },
        )
    } else if s.len() >= 1 && (forall|i: int| 0 <= i < s.len() ==> #[trigger] is_digit(s[i])) {
        Some(digits_value(s))
    } else {
        None
    }
}

/// The `i32` that `s` writes, if it writes one in range.
pub open spec fn i32_of(s: Seq<u8>) -> Option<i32> {
    match integer_of(s) {
        Some(v) => if i32::MIN <= v <= i32::MAX {
            Some(v as i32)
        } else {
            None
        },
        None => None,
    }
}

/// `s` up to its first `#`.
pub open spec fn before_comment(s: Seq<u8>) -> Seq<u8>
    decreases s.len(),
{
    if s.len() == 0 {
        s
    } else if s[0] == 35 {
        Seq::<u8>::empty()
    } else {
        seq![s[0]] + before_comment(s.drop_first())
    }
}

/// The values of the words `w`, or `None` if one of them is no `i32`.
pub open spec fn values_of(w: Seq<Seq<u8>>) -> Option<Seq<i32>>
    decreases w.len(),
{
    if w.len() == 0 {
        Some(Seq::<i32>::empty())
    } else {
        match (values_of(w.drop_last()), i32_of(w.last())) {
            (Some(vs), Some(v)) => Some(vs.push(v)),
            _ => None,
        }
    }
}

/// The `i32` that the bytes `s` write, as `str::parse::<i32>` reads them.
pub fn parse_i32(s: &[u8]) -> (r: Option<i32>)
    ensures
        r == i32_of(s@),
{
    let n = s.len();
    if n == 0 {
        return None;
    }
    let signed = s[0] == 43 || s[0] == 45;
    let start: usize = if signed {
        1
    } else {
        0
    };
    proof {
        if signed {
            assert(!is_digit(s@[0]));
        }
    }
    if start == n {
        return None;
    }
    let mut acc: i64 = 0;
    let mut too_big = false;
    let mut i: usize = start;
    while i < n
        invariant
            start <= i <= n,
            n == s@.len(),
            n >= 1,
            signed == (s@[0] == 43 || s@[0] == 45),
            start == (if signed {
                1int
            } else {
                0int
            }),
            forall|k: int| start <= k < i ==> #[trigger] is_digit(s@[k]),
            !too_big ==> acc == digits_value(s@.subrange(start as int, i as int)),
            too_big ==> digits_value(s@.subrange(start as int, i as int)) > 2147483648,
            0 <= acc <= 2147483648,
        decreases n - i,
    {
        let b = s[i];
        if b < 48 || b > 57 {
            proof {
                assert(!is_digit(s@[i as int]));
                if !signed {
                    assert(!(s@[0] == 43 || s@[0] == 45));
                    assert(!(forall|k: int| 0 <= k < s@.len() ==> #[trigger] is_digit(s@[k])));
                } else {
                    assert(!(forall|k: int| 1 <= k < s@.len() ==> #[trigger] is_digit(s@[k])));
                    assert(!(forall|k: int| 0 <= k < s@.len() ==> #[trigger] is_digit(s@[k])));
                }
                assert(integer_of(s@) is None);
            }
            return None;
        }
        proof {
            assert(s@.subrange(start as int, i + 1).drop_last() =~= s@.subrange(
                start as int,
                i as int,
            ));
        }
        if !too_big {
            let next = acc * 10 + (b - 48) as i64;
            if next > 2147483648 {
                too_big = true;
            } else {
                acc = next;
            }
        }
        i += 1;
    }
    proof {
        if start == 1 {
            assert(s@.subrange(1, n as int) =~= s@.drop_first());
            assert forall|k: int| 1 <= k < s@.len() implies #[trigger] is_digit(s@[k]) by {}
        } else {
            assert(s@.subrange(0, n as int) =~= s@);
        }
    }
    if too_big {
        None
    } else if signed && s[0] == 45 {
        Some((-acc) as i32)
    } else if acc > 2147483647 {
        None
    } else {
        Some(acc as i32)
    }
}

pub open spec fn byte_views(v: Seq<Vec<u8>>) -> Seq<Seq<u8>> {
    v.map_values(|w: Vec<u8>| w@)
}

/// The values that a line of a puzzle file gives: the words before any `#`, each an
/// `i32`, or `None` if a word is not one.
pub open spec fn line_values(line: Seq<u8>) -> Option<Seq<i32>> {
    values_of(words(before_comment(line)))
}

/// The part before the first `#` is the prefix that ends where the first `#` stands.
proof fn lemma_before_comment(s: Seq<u8>, h: int)
    requires
        0 <= h <= s.len(),
        forall|k: int| 0 <= k < h ==> s[k] != 35,
        h < s.len() ==> s[h] == 35,
    ensures
        before_comment(s) == s.subrange(0, h),
    decreases s.len(),
{
    if s.len() == 0 {
    } else if s[0] == 35 {
        assert(s.subrange(0, h) =~= Seq::<u8>::empty());
    } else {
        lemma_before_comment(s.drop_first(), h - 1);
        assert(s.subrange(0, h) =~= seq![s[0]] + s.drop_first().subrange(0, h - 1));
    }
}

/// The white-space separated words of `s`.
pub fn split_words(s: &[u8]) -> (r: Vec<Vec<u8>>)
    ensures
        byte_views(r@) == words(s@),
{
    let mut done: Vec<Vec<u8>> = Vec::new();
    let mut cur: Vec<u8> = Vec::new();
    let mut in_word = false;
    let mut i: usize = 0;
    while i < s.len()
        invariant
            i <= s@.len(),
            in_word == (i > 0 && !is_space(s@[i - 1])),
            words(s@.subrange(0, i as int)) == if in_word {
                byte_views(done@).push(cur@)
            } else {
                byte_views(done@)
            },
        decreases s@.len() - i,
    {
        let c = s[i];
        let ghost before = s@.subrange(0, i as int);
        proof {
            assert(s@.subrange(0, i + 1).drop_last() =~= before);
            assert(s@.subrange(0, i + 1).last() == c);
            if i > 0 {
                assert(s@.subrange(0, i + 1)[i - 1] == s@[i - 1]);
            }
        }
        let space = c == 32 || (9 <= c && c <= 13);
        if space {
            if in_word {
                let ghost old_done = done@;
                done.push(cur);
                cur = Vec::new();
                proof {
                    assert(byte_views(done@) =~= byte_views(old_done).push(
                        done@[done@.len() - 1]@,
                    ));
                }
            }
            in_word = false;
        } else if in_word {
            let ghost old_cur = cur@;
            cur.push(c);
            proof {
                let t = byte_views(done@).push(old_cur);
                assert(t.update(t.len() - 1, t.last().push(c)) =~= byte_views(done@).push(cur@));
            }
        } else {
            cur = Vec::new();
            cur.push(c);
            in_word = true;
            proof {
                assert(cur@ =~= seq![c]);
            }
        }
        i += 1;
    }
    if in_word {
        let ghost old_done = done@;
        done.push(cur);
        proof {
            assert(byte_views(done@) =~= byte_views(old_done).push(done@[done@.len() - 1]@));
        }
    }
    proof {
        assert(s@.subrange(0, s@.len() as int) =~= s@);
    }
    done
}

/// The values of a line of a puzzle file: `None` when it holds no value (it is empty,
/// blank, or a comment), the values otherwise, and `Err` when a word before any `#` is
/// not an `i32`.
pub fn parse_line(line: &[u8]) -> (r: Result<Option<Vec<i32>>, ()>)
    ensures
        match line_values(line@) {
            None => r is Err,
            Some(vs) => if vs.len() == 0 {
                r == Ok::<Option<Vec<i32>>, ()>(None)
            } else {
                r matches Ok(Some(v)) && v@ == vs
            },
        },
{
    let mut h: usize = 0;
    while h < line.len() && line[h] != 35
        invariant
            h <= line@.len(),
            forall|k: int| 0 <= k < h ==> line@[k] != 35,
        decreases line@.len() - h,
    {
        h += 1;
    }
    proof {
        lemma_before_comment(line@, h as int);
    }
    let body = &line[0..h];
    let ws = split_words(body);
    let mut values: Vec<i32> = Vec::new();
    let mut j: usize = 0;
    while j < ws.len()
        invariant
            j <= ws@.len(),
            byte_views(ws@) == words(before_comment(line@)),
            values_of(byte_views(ws@).subrange(0, j as int)) == Some(values@),
        decreases ws@.len() - j,
    {
        let ghost w = byte_views(ws@);
        proof {
            assert(w.subrange(0, j + 1).drop_last() =~= w.subrange(0, j as int));
            assert(w.subrange(0, j + 1).last() == ws@[j as int]@);
        }
        match parse_i32(ws[j].as_slice()) {
            Some(v) => {
                values.push(v);
            },
            None => {
                proof {
                    lemma_values_prefix_none(w, j as int + 1);
                    assert(w.subrange(0, w.len() as int) =~= w);
                }
                return Err(());
            },
        }
        j += 1;
    }
    proof {
        let w = byte_views(ws@);
        assert(w.subrange(0, w.len() as int) =~= w);
    }
    if values.len() == 0 {
        Ok(None)
    } else {
        Ok(Some(values))
    }
}

/// A word that is no `i32` leaves the whole line without values.
proof fn lemma_values_prefix_none(w: Seq<Seq<u8>>, k: int)
    requires
        0 <= k <= w.len(),
        values_of(w.subrange(0, k)) is None,
    ensures
        values_of(w) is None,
    decreases w.len() - k,
{
    if k < w.len() {
        assert(w.subrange(0, k + 1).drop_last() =~= w.subrange(0, k));
        lemma_values_prefix_none(w, k + 1);
    } else {
        assert(w.subrange(0, k) =~= w);
    }
}

/// The lines of `s`, split at each line feed.
pub fn lines_of(s: &[u8]) -> (r: Vec<Vec<u8>>)
    ensures
        byte_views(r@) == split_lines(s@),
{
    let mut done: Vec<Vec<u8>> = Vec::new();
    let mut cur: Vec<u8> = Vec::new();
    let mut i: usize = 0;
    while i < s.len()
        invariant
            i <= s@.len(),
            split_lines(s@.subrange(0, i as int)) == byte_views(done@).push(cur@),
        decreases s@.len() - i,
    {
        let c = s[i];
        proof {
            assert(s@.subrange(0, i + 1).drop_last() =~= s@.subrange(0, i as int));
            assert(s@.subrange(0, i + 1).last() == c);
        }
        if c == 10 {
            let ghost old_done = done@;
            let ghost old_cur = cur@;
            done.push(cur);
            cur = Vec::new();
            proof {
                assert(byte_views(done@) =~= byte_views(old_done).push(old_cur));
                assert(byte_views(done@).push(cur@) =~= byte_views(old_done).push(old_cur).push(
                    Seq::<u8>::empty(),
                ));
            }
        } else {
            let ghost old_cur = cur@;
            cur.push(c);
            proof {
                let t = byte_views(done@).push(old_cur);
                assert(t.update(t.len() - 1, t.last().push(c)) =~= byte_views(done@).push(cur@));
            }
        }
        i += 1;
    }
    proof {
        assert(s@.subrange(0, s@.len() as int) =~= s@);
    }
    let ghost old_done = done@;
    let ghost old_cur = cur@;
    done.push(cur);
    proof {
        assert(byte_views(done@) =~= byte_views(old_done).push(old_cur));
    }
    done
}

/// The `u32` that `s` writes, as `str::parse::<u32>` reads it: no `-` sign.
pub open spec fn u32_of(s: Seq<u8>) -> Option<u32> {
    if s.len() >= 1 && s[0] == 45 {
        None
    } else {
        match integer_of(s) {
            Some(v) => if 0 <= v <= u32::MAX {
                Some(v as u32)
            } else {
                None
            },
            None => None,
        }
    }
}

/// The `u32` that the bytes `s` write, as `str::parse::<u32>` reads them.
pub fn parse_u32(s: &[u8]) -> (r: Option<u32>)
    ensures
        r == u32_of(s@),
{
    let n = s.len();
    if n == 0 {
        return None;
    }
    if s[0] == 45 {
        return None;
    }
    let signed = s[0] == 43;
    let start: usize = if signed {
        1
    } else {
        0
    };
    proof {
        if signed {
            assert(!is_digit(s@[0]));
        }
    }
    if start == n {
        return None;
    }
    let mut acc: u64 = 0;
    let mut too_big = false;
    let mut i: usize = start;
    while i < n
        invariant
            start <= i <= n,
            n == s@.len(),
            n >= 1,
            s@[0] != 45,
            signed == (s@[0] == 43),
            start == (if signed {
                1int
            } else {
                0int
            }),
            forall|k: int| start <= k < i ==> #[trigger] is_digit(s@[k]),
            !too_big ==> acc == digits_value(s@.subrange(start as int, i as int)),
            too_big ==> digits_value(s@.subrange(start as int, i as int)) > 4294967295,
            acc <= 4294967295,
        decreases n - i,
    {
        let b = s[i];
        if b < 48 || b > 57 {
            proof {
                assert(!is_digit(s@[i as int]));
                if !signed {
                    assert(!(forall|k: int| 0 <= k < s@.len() ==> #[trigger] is_digit(s@[k])));
                } else {
                    assert(!(forall|k: int| 1 <= k < s@.len() ==> #[trigger] is_digit(s@[k])));
                    assert(!(forall|k: int| 0 <= k < s@.len() ==> #[trigger] is_digit(s@[k])));
                }
                assert(integer_of(s@) is None);
            }
            return None;
        }
        proof {
            assert(s@.subrange(start as int, i + 1).drop_last() =~= s@.subrange(
                start as int,
                i as int,
            ));
        }
        if !too_big {
            let next = acc * 10 + (b - 48) as u64;
            if next > 4294967295 {
                too_big = true;
            } else {
                acc = next;
            }
        }
        i += 1;
    }
    proof {
        if start == 1 {
            assert(s@.subrange(1, n as int) =~= s@.drop_first());
            assert forall|k: int| 1 <= k < s@.len() implies #[trigger] is_digit(s@[k]) by {}
        } else {
            assert(s@.subrange(0, n as int) =~= s@);
        }
    }
    if too_big {
        None
    } else {
        Some(acc as u32)
    }
}

} // verus!

//! Offline construction of the solver artifact: validating and normalizing
//! the word lists, evaluating the feedback encoder for every (guess, target)
//! pair, and serializing vocabulary, target mask and code matrix into one
//! self-contained byte artifact.

use vstd::prelude::*;
use crate::wordle::Word;
use crate::feedback::pattern_code;
use crate::feedback::calculate_pattern;

verus! {

/// A vocabulary entry that is not exactly five ASCII letters; the build
/// aborts on the first such line.
#[derive(Clone, Copy, Debug, PartialEq, Eq, Structural)]
pub struct InvalidWordError;

/// An ASCII letter, of either case.
pub open spec fn is_letter(b: u8) -> bool {
    (65 <= b <= 90) || (97 <= b <= 122)
}

/// The upper-case form of an ASCII letter byte.
pub open spec fn upper(b: u8) -> u8 {
    if 97 <= b <= 122 {
        (b - 32) as u8
    } else {
        b
    }
}

/// A token accepted as a vocabulary word: exactly five ASCII letters.
pub open spec fn valid_line(l: Seq<u8>) -> bool {
    l.len() == 5 && forall|i: int| 0 <= i < 5 ==> is_letter(#[trigger] l[i])
}

/// The index of the first line feed, or the length when there is none.
pub open spec fn line_break(d: Seq<u8>) -> int
    decreases d.len(),
{
    if d.len() == 0 {
        0
    } else if d.first() == 10 {
        0
    } else {
        1 + line_break(d.drop_first())
    }
}

/// A line with a trailing carriage return removed, as line-based readers
/// treat it.
pub open spec fn strip_cr(l: Seq<u8>) -> Seq<u8> {
    if l.len() > 0 && l.last() == 13 {
        l.drop_last()
    } else {
        l
    }
}

/// `line_break` is determined by where the line feeds are.
pub proof fn lemma_line_break_at(d: Seq<u8>, j: int)
    requires
        0 <= j <= d.len(),
        forall|i: int| 0 <= i < j ==> d[i] != 10,
        j == d.len() || d[j] == 10,
    ensures
        line_break(d) == j,
    decreases d.len(),
{
    if d.len() > 0 && j > 0 {
        assert(d.first() != 10);
        lemma_line_break_at(d.drop_first(), j - 1);
    }
}

/// The newline-delimited lines of a byte blob, each stripped of a trailing
/// carriage return; a final line feed does not open an extra empty line.
pub open spec fn split_lines(d: Seq<u8>) -> Seq<Seq<u8>>
    decreases d.len(),
{
    if d.len() == 0 {
        Seq::empty()
    } else {
        let j = line_break_capped(d);
        if j == d.len() {
            seq![strip_cr(d)]
        } else {
            seq![strip_cr(d.take(j))] + split_lines(d.skip(j + 1))
        }
    }
}

/// `line_break`, clamped into range so the recursion above is well defined.
pub open spec fn line_break_capped(d: Seq<u8>) -> int {
    if 0 <= line_break(d) <= d.len() {
        line_break(d)
    } else {
        d.len() as int
    }
}

/// Validates and normalizes one token: exactly five ASCII letters, folded to
/// upper case.
pub fn parse_word(token: &Vec<u8>) -> (r: Result<Word, InvalidWordError>)
    ensures
        (r matches Ok(_)) <==> valid_line(token@),
        r matches Ok(w) ==> forall|p: int| 0 <= p < 5 ==> w@[p] == upper(#[trigger] token@[p]),
{
    if token.len() != 5 {
        return Err(InvalidWordError);
    }
    let mut letters: [u8; 5] = [0, 0, 0, 0, 0];
    let mut i: usize = 0;
    let mut ok: bool = true;
    while i < 5
        invariant
            i <= 5,
            token@.len() == 5,
            ok ==> forall|p: int| 0 <= p < i ==> is_letter(#[trigger] token@[p]),
            ok ==> forall|p: int| 0 <= p < i ==> letters@[p] == upper(#[trigger] token@[p]),
            !ok ==> exists|p: int| 0 <= p < 5 && !is_letter(#[trigger] token@[p]),
        decreases 5 - i,
    {
        let b = token[i];
        if (65 <= b && b <= 90) {
            letters[i] = b;
        } else if (97 <= b && b <= 122) {
            letters[i] = b - 32;
        } else {
            ok = false;
        }
        i = i + 1;
    }
    if !ok {
        return Err(InvalidWordError);
    }
    Ok(Word::from_bytes(letters))
}

/// Validates and normalizes a newline-delimited word list: every line must
/// be exactly five ASCII letters, and the first offending line aborts the
/// build.
pub fn parse_word_list(data: &Vec<u8>) -> (r: Result<Vec<Word>, InvalidWordError>)
    ensures
        (r matches Ok(_)) <==> (forall|i: int|
            0 <= i < split_lines(data@).len() ==> valid_line(#[trigger] split_lines(data@)[i])),
        r matches Ok(ws) ==> ws@.len() == split_lines(data@).len() && forall|i: int, p: int|
            0 <= i < ws@.len() && 0 <= p < 5 ==> (#[trigger] ws@[i]@[p]) == upper(
                split_lines(data@)[i][p],
            ),
{
    let dl = data.len();
    let mut words: Vec<Word> = Vec::new();
    let mut s: usize = 0;
    let ghost all = split_lines(data@);
    proof {
        assert(data@.skip(0) =~= data@);
        assert(all.take(0) + split_lines(data@.skip(0)) =~= all);
    }
    while s < dl
        invariant
            dl == data@.len(),
            s <= dl,
            all == split_lines(data@),
            words@.len() <= all.len(),
            all =~= all.take(words@.len() as int) + split_lines(data@.skip(s as int)),
            forall|i: int| 0 <= i < words@.len() ==> valid_line(#[trigger] all[i]),
            forall|i: int, p: int|
                0 <= i < words@.len() && 0 <= p < 5 ==> (#[trigger] words@[i]@[p]) == upper(
                    all[i][p],
                ),
        decreases dl - s,
    {
        let ghost rest = data@.skip(s as int);
        let mut e: usize = s;
        while e < dl && data[e] != 10
            invariant
                dl == data@.len(),
                s <= e <= dl,
                forall|i: int| s <= i < e ==> data@[i] != 10,
            decreases dl - e,
        {
            e = e + 1;
        }
        proof {
            assert forall|i: int| 0 <= i < e - s implies rest[i] != 10 by {
                assert(rest[i] == data@[s + i]);
            }
            if e < dl {
                assert(rest[e - s as int] == data@[e as int]);
            }
            lemma_line_break_at(rest, e - s as int);
        }
        let mut token: Vec<u8> = Vec::new();
        let stop = if e > s && data[e - 1] == 13 {
            e - 1
        } else {
            e
        };
        let mut q: usize = s;
        while q < stop
            invariant
                dl == data@.len(),
                s <= q <= stop <= dl,
                token@.len() == q - s,
                forall|i: int| 0 <= i < token@.len() ==> (#[trigger] token@[i]) == data@[s + i],
            decreases stop - q,
        {
            token.push(data[q]);
            q = q + 1;
        }
        let ghost j = e - s as int;
        proof {
            assert(line_break_capped(rest) == j);
            if e == dl {
                assert(strip_cr(rest) =~= token@);
                assert(split_lines(rest) == seq![strip_cr(rest)]);
            } else {
                assert(rest.take(j) =~= data@.subrange(s as int, e as int));
                assert(strip_cr(rest.take(j)) =~= token@);
                assert(split_lines(rest) == seq![strip_cr(rest.take(j))] + split_lines(
                    rest.skip(j + 1),
                ));
                assert(rest.skip(j + 1) =~= data@.skip(e as int + 1));
            }
        }
        let parsed = parse_word(&token);
        match parsed {
            Ok(w) => {
                words.push(w);
                proof {
                    let n = words@.len() as int;
                    assert(all[n - 1] =~= token@);
                    if e == dl {
                        assert(all =~= all.take(n) + split_lines(data@.skip(dl as int)));
                    } else {
                        assert(all =~= all.take(n) + split_lines(data@.skip(e as int + 1)));
                    }
                }
            },
            Err(_) => {
                proof {
                    let n = words@.len() as int;
                    assert(all[n] =~= token@);
                    assert(!valid_line(all[n]));
                }
                return Err(InvalidWordError);
            },
        }
        if e < dl {
            s = e + 1;
        } else {
            s = dl;
            proof {
                assert(split_lines(data@.skip(dl as int)) =~= Seq::<Seq<u8>>::empty());
            }
        }
    }
    proof {
        assert(split_lines(data@.skip(dl as int)) =~= Seq::<Seq<u8>>::empty());
        assert(all =~= all.take(words@.len() as int));
        assert(words@.len() == all.len());
    }
    Ok(words)
}

/// Whether some word of `list` spells the same letters as `w`.
pub open spec fn contains_word(list: Seq<Word>, w: Word) -> bool {
    exists|i: int| 0 <= i < list.len() && (#[trigger] list[i]@) == w@
}

/// The words of `ws` that also occur in `ts`, kept in vocabulary order: the
/// target-eligible subset of the vocabulary.
pub open spec fn chosen_targets(ws: Seq<Word>, ts: Seq<Word>) -> Seq<Word>
    decreases ws.len(),
{
    if ws.len() == 0 {
        Seq::empty()
    } else {
        let pre = chosen_targets(ws.drop_last(), ts);
        if contains_word(ts, ws.last()) {
            pre.push(ws.last())
        } else {
            pre
        }
    }
}

pub proof fn lemma_chosen_targets_len(ws: Seq<Word>, ts: Seq<Word>)
    ensures
        chosen_targets(ws, ts).len() <= ws.len(),
    decreases ws.len(),
{
    if ws.len() > 0 {
        lemma_chosen_targets_len(ws.drop_last(), ts);
    }
}

/// The chosen targets are the vocabulary words at the true positions of the
/// eligibility mask: both enumerations walk the vocabulary in order and keep
/// the same entries.
pub proof fn lemma_chosen_matches_positions(ws: Seq<Word>, ts: Seq<Word>, msk: Seq<bool>)
    requires
        ws.len() <= 0xFFFF,
        msk.len() == ws.len(),
        forall|i: int| 0 <= i < ws.len() ==> #[trigger] msk[i] == contains_word(ts, ws[i]),
    ensures
        chosen_targets(ws, ts).len() == crate::candidates::true_positions(msk).len(),
        forall|k: int|
            0 <= k < chosen_targets(ws, ts).len() ==> #[trigger] chosen_targets(ws, ts)[k]
                == ws[crate::candidates::true_positions(msk)[k] as int],
    decreases ws.len(),
{
    if ws.len() > 0 {
        let dw = ws.drop_last();
        let dm = msk.drop_last();
        assert(forall|i: int| 0 <= i < dw.len() ==> #[trigger] dm[i] == contains_word(ts, dw[i]));
        lemma_chosen_matches_positions(dw, ts, dm);
        crate::candidates::lemma_true_positions_props(dm);
        let pre = chosen_targets(dw, ts);
        let tp = crate::candidates::true_positions(dm);
        assert(msk.last() == contains_word(ts, ws.last()));
        assert forall|k: int| 0 <= k < pre.len() implies #[trigger] pre[k] == ws[tp[k] as int] by {
            assert(pre[k] == dw[tp[k] as int]);
        }
    }
}

/// Whether some word of `list` spells the same letters as `w`.
fn word_in_list(list: &Vec<Word>, w: &Word) -> (r: bool)
    ensures
        r == contains_word(list@, *w),
{
    let mut i: usize = 0;
    while i < list.len()
        invariant
            i <= list@.len(),
            forall|k: int| 0 <= k < i ==> (#[trigger] list@[k]@) != w@,
        decreases list@.len() - i,
    {
        if list[i].same(w) {
            return true;
        }
        i = i + 1;
    }
    false
}

/// Serializes a vocabulary and its target-eligible subset into the solver
/// artifact: a big-endian header with both counts, the concatenated words,
/// the target mask, and the full feedback-code matrix computed by the
/// encoder for every (guess, target) pair, row-major by target then guess.
pub fn build_artifact(words: &Vec<Word>, targets: &Vec<Word>) -> (out: Vec<u8>)
    requires
        words@.len() <= 0xFFFF,
    ensures
        ({
            let w = words@.len() as int;
            let tw = chosen_targets(words@, targets@);
            let t = tw.len() as int;
            &&& out@.len() == 4 + 6 * w + w * t
            &&& out@[0] == w / 256
            &&& out@[1] == w % 256
            &&& out@[2] == t / 256
            &&& out@[3] == t % 256
            &&& forall|i: int, p: int|
                0 <= i < w && 0 <= p < 5 ==> (#[trigger] out@[4 + 5 * i + p]) == words@[i]@[p]
            &&& forall|i: int|
                0 <= i < w ==> (#[trigger] out@[4 + 5 * w + i]) == (if contains_word(
                    targets@,
                    words@[i],
                ) {
                    1u8
                } else {
                    0u8
                })
            &&& forall|ti: int, g: int|
                0 <= ti < t && 0 <= g < w ==> (#[trigger] out@[4 + 6 * w + ti * w + g])
                    == pattern_code(words@[g]@, tw[ti]@)
        }),
{
    let w = words.len();
    let ghost tw = chosen_targets(words@, targets@);
    let mut tlist: Vec<Word> = Vec::new();
    let mut maskbits: Vec<u8> = Vec::new();
    let mut i: usize = 0;
    while i < w
        invariant
            w == words@.len(),
            i <= w,
            tlist@ == chosen_targets(words@.take(i as int), targets@),
            maskbits@.len() == i,
            forall|k: int|
                0 <= k < i ==> (#[trigger] maskbits@[k]) == (if contains_word(
                    targets@,
                    words@[k],
                ) {
                    1u8
                } else {
                    0u8
                }),
        decreases w - i,
    {
        proof {
            assert(words@.take(i as int + 1).drop_last() =~= words@.take(i as int));
            assert(words@.take(i as int + 1).last() == words@[i as int]);
        }
        let word = words[i];
        if word_in_list(targets, &word) {
            tlist.push(word);
            maskbits.push(1);
        } else {
            maskbits.push(0);
        }
        i = i + 1;
    }
    proof {
        assert(words@.take(words@.len() as int) =~= words@);
        assert(tlist@ == tw);
        lemma_chosen_targets_len(words@, targets@);
    }
    let t = tlist.len();
    let mut out: Vec<u8> = Vec::new();
    out.push((w / 256) as u8);
    out.push((w % 256) as u8);
    out.push((t / 256) as u8);
    out.push((t % 256) as u8);
    let mut i2: usize = 0;
    while i2 < w
        invariant
            w == words@.len(),
            i2 <= w,
            out@.len() == 4 + 5 * i2,
            out@[0] == w as int / 256,
            out@[1] == w as int % 256,
            out@[2] == t as int / 256,
            out@[3] == t as int % 256,
            forall|i3: int, p: int|
                0 <= i3 < i2 && 0 <= p < 5 ==> (#[trigger] out@[4 + 5 * i3 + p]) == words@[i3]@[p],
        decreases w - i2,
    {
        let letters = words[i2].letters();
        out.push(letters[0]);
        out.push(letters[1]);
        out.push(letters[2]);
        out.push(letters[3]);
        out.push(letters[4]);
        i2 = i2 + 1;
    }
    let mut i4: usize = 0;
    while i4 < w
        invariant
            w == words@.len(),
            maskbits@.len() == w,
            i4 <= w,
            out@.len() == 4 + 5 * w + i4,
            out@[0] == w as int / 256,
            out@[1] == w as int % 256,
            out@[2] == t as int / 256,
            out@[3] == t as int % 256,
            forall|i3: int, p: int|
                0 <= i3 < w && 0 <= p < 5 ==> (#[trigger] out@[4 + 5 * i3 + p]) == words@[i3]@[p],
            forall|k: int| 0 <= k < i4 ==> (#[trigger] out@[4 + 5 * w + k]) == maskbits@[k],
            forall|k: int|
                0 <= k < w ==> (#[trigger] maskbits@[k]) == (if contains_word(
                    targets@,
                    words@[k],
                ) {
                    1u8
                } else {
                    0u8
                }),
        decreases w - i4,
    {
        out.push(maskbits[i4]);
        i4 = i4 + 1;
    }
    let mut ti: usize = 0;
    while ti < t
        invariant
            w == words@.len(),
            t == tw.len(),
            tlist@ == tw,
            ti <= t,
            out@.len() == 4 + 6 * w + ti * w,
            out@[0] == w as int / 256,
            out@[1] == w as int % 256,
            out@[2] == t as int / 256,
            out@[3] == t as int % 256,
            forall|i3: int, p: int|
                0 <= i3 < w && 0 <= p < 5 ==> (#[trigger] out@[4 + 5 * i3 + p]) == words@[i3]@[p],
            forall|k: int|
                0 <= k < w ==> (#[trigger] out@[4 + 5 * w + k]) == (if contains_word(
                    targets@,
                    words@[k],
                ) {
                    1u8
                } else {
                    0u8
                }),
            forall|t2: int, g: int|
                0 <= t2 < ti && 0 <= g < w ==> (#[trigger] out@[4 + 6 * w + t2 * w + g])
                    == pattern_code(words@[g]@, tw[t2]@),
        decreases t - ti,
    {
        let target = tlist[ti];
        let mut g: usize = 0;
        while g < w
            invariant
                w == words@.len(),
                t == tw.len(),
                ti < t,
                target == tw[ti as int],
                g <= w,
                out@.len() == 4 + 6 * w + ti * w + g,
                out@[0] == w as int / 256,
                out@[1] == w as int % 256,
                out@[2] == t as int / 256,
                out@[3] == t as int % 256,
                forall|i3: int, p: int|
                    0 <= i3 < w && 0 <= p < 5 ==> (#[trigger] out@[4 + 5 * i3 + p])
                        == words@[i3]@[p],
                forall|k: int|
                    0 <= k < w ==> (#[trigger] out@[4 + 5 * w + k]) == (if contains_word(
                        targets@,
                        words@[k],
                    ) {
                        1u8
                    } else {
                        0u8
                    }),
                forall|t2: int, g2: int|
                    0 <= t2 < ti && 0 <= g2 < w ==> (#[trigger] out@[4 + 6 * w + t2 * w + g2])
                        == pattern_code(words@[g2]@, tw[t2]@),
                forall|g2: int|
                    0 <= g2 < g ==> (#[trigger] out@[4 + 6 * w + ti as int * w + g2])
                        == pattern_code(words@[g2]@, tw[ti as int]@),
            decreases w - g,
        {
            let code = calculate_pattern(words[g].letters(), target.letters());
            out.push(code);
            proof {
                vstd::arithmetic::mul::lemma_mul_nonnegative(ti as int, w as int);
                assert forall|t2: int, g2: int|
                    0 <= t2 < ti as int && 0 <= g2 < w implies (#[trigger] out@[4 + 6 * w + t2 * w
                    + g2]) == pattern_code(words@[g2]@, tw[t2]@) by {
                    vstd::arithmetic::mul::lemma_mul_inequality(t2, ti as int - 1, w as int);
                    vstd::arithmetic::mul::lemma_mul_is_distributive_add_other_way(
                        w as int,
                        ti as int - 1,
                        1,
                    );
                }
            }
            g = g + 1;
        }
        proof {
            vstd::arithmetic::mul::lemma_mul_is_distributive_add_other_way(w as int, ti as int, 1);
            assert forall|t2: int, g2: int|
                0 <= t2 < ti as int + 1 && 0 <= g2 < w implies (#[trigger] out@[4 + 6 * w + t2 * w
                + g2]) == pattern_code(words@[g2]@, tw[t2]@) by {
                if t2 == ti as int {
                    assert(out@[4 + 6 * w + ti as int * w + g2] == pattern_code(
                        words@[g2]@,
                        tw[ti as int]@,
                    ));
                }
            }
        }
        ti = ti + 1;
    }
    proof {
        vstd::arithmetic::mul::lemma_mul_is_commutative(t as int, w as int);
    }
    out
}

} // verus!

use vstd::prelude::*;

verus! {

/// The byte of the decimal digit `d`.
pub open spec fn digit(d: int) -> u8 {
    (48 + d) as u8
}

/// Whether `b` is a decimal digit.
pub open spec fn is_digit(b: u8) -> bool {
    48 <= b <= 57
}

/// Whether `b` is white space: a blank, a tab, a line feed, a vertical tab,
/// a form feed or a carriage return.
pub open spec fn is_space(b: u8) -> bool {
    b == 32 || (9 <= b <= 13)
}

/// The decimal digits of `n`.
pub open spec fn digits(n: nat) -> Seq<u8>
    decreases n,
{
    if n < 10 {
        seq![digit(n as int)]
    } else {
        digits(n / 10).push(digit((n % 10) as int))
    }
}

/// The number that the decimal digits `tok` write; `None` where `tok` is
/// empty or holds anything but digits.
pub open spec fn parse_nat(tok: Seq<u8>) -> Option<nat>
    decreases tok.len(),
{
    if tok.len() == 0 || !is_digit(tok.last()) {
        None
    } else if tok.len() == 1 {
        Some((tok.last() - 48) as nat)
    } else {
        match parse_nat(tok.drop_last()) {
            Some(v) => Some((v * 10 + (tok.last() - 48)) as nat),
            None => None,
        }
    }
}

/// The words of `text`: its longest stretches without white space.
pub open spec fn words(text: Seq<u8>) -> Seq<Seq<u8>>
    decreases text.len(),
{
    if text.len() == 0 {
        Seq::empty()
    } else {
        let init = words(text.drop_last());
        let b = text.last();
        if is_space(b) {
            init
        } else if text.len() >= 2 && !is_space(text[text.len() - 2]) && init.len() > 0 {
            init.update(init.len() - 1, init.last().push(b))
        } else {
            init.push(seq![b])
        }
    }
}

/// The numbers `tokens` in decimal digits, one blank between neighbours.
pub open spec fn join(tokens: Seq<nat>) -> Seq<u8>
    decreases tokens.len(),
{
    if tokens.len() == 0 {
        Seq::empty()
    } else if tokens.len() == 1 {
        digits(tokens[0])
    } else {
        join(tokens.drop_last()) + seq![32u8] + digits(tokens.last())
    }
}

/// Whether `w` is a word: not empty and free of white space.
pub open spec fn is_word(w: Seq<u8>) -> bool {
    w.len() > 0 && forall|i: int| 0 <= i < w.len() ==> !is_space(#[trigger] w[i])
}

/// The digits of a number are a word of digits that reads as the number.
pub proof fn lemma_digits(n: nat)
    ensures
        digits(n).len() > 0,
        forall|i: int| 0 <= i < digits(n).len() ==> is_digit(#[trigger] digits(n)[i]),
        is_word(digits(n)),
        parse_nat(digits(n)) == Some(n),
    decreases n,
{
    if n >= 10 {
        lemma_digits(n / 10);
        let d = digits(n);
        assert(d.drop_last() =~= digits(n / 10));
        assert forall|i: int| 0 <= i < d.len() implies is_digit(#[trigger] d[i]) by {
            if i < d.len() - 1 {
                assert(d[i] == digits(n / 10)[i]);
            }
        }
        assert(d.last() == digit((n % 10) as int));
    }
    assert forall|i: int| 0 <= i < digits(n).len() implies !is_space(#[trigger] digits(n)[i]) by {
        assert(is_digit(digits(n)[i]));
    }
}

/// A word that follows white space, or stands first, is the last word of
/// the text.
pub proof fn lemma_words_append(text: Seq<u8>, w: Seq<u8>)
    requires
        text.len() == 0 || is_space(text.last()),
        is_word(w),
    ensures
        words(text + w) == words(text).push(w),
    decreases w.len(),
{
    let whole = text + w;
    assert(whole.drop_last() =~= text + w.drop_last());
    assert(whole.last() == w.last());
    if w.len() == 1 {
        assert(text + w.drop_last() =~= text);
        assert(w =~= seq![w.last()]);
        if text.len() > 0 {
            assert(whole[whole.len() - 2] == text.last());
        }
    } else {
        assert(is_word(w.drop_last())) by {
            assert forall|i: int| 0 <= i < w.drop_last().len() implies !is_space(
                #[trigger] w.drop_last()[i],
            ) by {
                assert(w.drop_last()[i] == w[i]);
            }
        }
        lemma_words_append(text, w.drop_last());
        assert(whole[whole.len() - 2] == w[w.len() - 2]);
        let init = words(text).push(w.drop_last());
        assert(w.drop_last().push(w.last()) =~= w);
        assert(init.last() == w.drop_last());
        assert(init.update(init.len() - 1, init.last().push(w.last())) =~= words(text).push(w));
    }
}

/// White space at the end of a text adds no word.
pub proof fn lemma_words_space(text: Seq<u8>, b: u8)
    requires
        is_space(b),
    ensures
        words(text.push(b)) == words(text),
{
    assert(text.push(b).drop_last() =~= text);
}

/// The words of joined numbers are their digits.
pub proof fn lemma_words_join(tokens: Seq<nat>)
    ensures
        words(join(tokens)) == tokens.map_values(|t: nat| digits(t)),
        tokens.len() > 0 ==> join(tokens).len() > 0 && !is_space(join(tokens).last()),
    decreases tokens.len(),
{
    let out = tokens.map_values(|t: nat| digits(t));
    if tokens.len() == 0 {
        assert(words(join(tokens)) =~= out);
    } else if tokens.len() == 1 {
        lemma_digits(tokens[0]);
        lemma_words_append(Seq::empty(), digits(tokens[0]));
        assert(Seq::<u8>::empty() + digits(tokens[0]) =~= digits(tokens[0]));
        assert(words(Seq::<u8>::empty()).push(digits(tokens[0])) =~= out);
        assert(!is_space(digits(tokens[0])[digits(tokens[0]).len() - 1]));
    } else {
        let init = tokens.drop_last();
        lemma_words_join(init);
        lemma_digits(tokens.last());
        let spaced = join(init).push(32u8);
        lemma_words_space(join(init), 32u8);
        lemma_words_append(spaced, digits(tokens.last()));
        assert(join(tokens) =~= spaced + digits(tokens.last()));
        assert(init.map_values(|t: nat| digits(t)).push(digits(tokens.last())) =~= out);
        let d = digits(tokens.last());
        assert(join(tokens).last() == d[d.len() - 1]);
        assert(!is_space(d[d.len() - 1]));
    }
}

/// The words of `text`.
pub fn split_words(text: &[u8]) -> (out: Vec<Vec<u8>>)
    ensures
        out@.len() == words(text@).len(),
        forall|k: int| 0 <= k < out@.len() ==> (#[trigger] out@[k])@ == words(text@)[k],
{
    let mut out: Vec<Vec<u8>> = Vec::new();
    let mut word: Vec<u8> = Vec::new();
    let mut i: usize = 0;
    proof {
        assert(text@.take(0) =~= Seq::<u8>::empty());
    }
    while i < text.len()
        invariant
            i <= text@.len(),
            word@.len() > 0 <==> (i > 0 && !is_space(text@[i - 1])),
            word@.len() > 0 ==> words(text@.take(i as int)).len() == out@.len() + 1 && words(
                text@.take(i as int),
            ).last() == word@,
            word@.len() == 0 ==> words(text@.take(i as int)).len() == out@.len(),
            forall|k: int|
                0 <= k < out@.len() ==> (#[trigger] out@[k])@ == words(text@.take(i as int))[k],
        decreases text@.len() - i,
    {
        let b = text[i];
        proof {
            assert(text@.take(i + 1).drop_last() =~= text@.take(i as int));
            assert(text@.take(i + 1).last() == b);
            if i > 0 {
                assert(text@.take(i + 1)[i - 1] == text@[i - 1]);
            }
        }
        if b == 32 || (9 <= b && b <= 13) {
            if word.len() > 0 {
                out.push(word);
                word = Vec::new();
            }
        } else {
            word.push(b);
        }
        i = i + 1;
    }
    proof {
        assert(text@.take(i as int) =~= text@);
    }
    if word.len() > 0 {
        out.push(word);
    }
    out
}

/// The number that the decimal digits `tok` write, where they write one
/// that fits.
pub fn read_number(tok: &Vec<u8>) -> (res: Option<u64>)
    ensures
        match res {
            Some(v) => parse_nat(tok@) == Some(v as nat),
            None => parse_nat(tok@) matches Some(v) ==> v > u64::MAX,
        },
{
    if tok.len() == 0 {
        return None;
    }
    let mut value: u64 = 0;
    let mut i: usize = 0;
    while i < tok.len()
        invariant
            i <= tok@.len(),
            tok@.len() > 0,
            i > 0 ==> parse_nat(tok@.take(i as int)) == Some(value as nat),
            i == 0 ==> value == 0,
        decreases tok@.len() - i,
    {
        let b = tok[i];
        proof {
            assert(tok@.take(i + 1).drop_last() =~= tok@.take(i as int));
            assert(tok@.take(i + 1).last() == b);
        }
        if b < 48 || b > 57 {
            proof {
                lemma_parse_nat_prefix(tok@, i + 1);
            }
            return None;
        }
        let d = (b - 48) as u64;
        if value > (u64::MAX - d) / 10 {
            proof {
                lemma_parse_nat_grows(tok@, i + 1);
            }
            return None;
        }
        value = value * 10 + d;
        i = i + 1;
    }
    proof {
        assert(tok@.take(i as int) =~= tok@);
    }
    Some(value)
}

/// A text whose beginning is no number is no number.
pub proof fn lemma_parse_nat_prefix(tok: Seq<u8>, k: int)
    requires
        0 < k <= tok.len(),
        parse_nat(tok.take(k)) is None,
    ensures
        parse_nat(tok) is None,
    decreases tok.len(),
{
    if k < tok.len() {
        assert(tok.drop_last().take(k) =~= tok.take(k));
        lemma_parse_nat_prefix(tok.drop_last(), k);
    } else {
        assert(tok.take(k) =~= tok);
    }
}

/// A number is no smaller than the number that its first digits write.
pub proof fn lemma_parse_nat_grows(tok: Seq<u8>, k: int)
    requires
        0 < k <= tok.len(),
    ensures
        parse_nat(tok) matches Some(v) ==> parse_nat(tok.take(k)) matches Some(w) && w <= v,
    decreases tok.len(),
{
    if k < tok.len() {
        assert(tok.drop_last().take(k) =~= tok.take(k));
        lemma_parse_nat_grows(tok.drop_last(), k);
    } else {
        assert(tok.take(k) =~= tok);
    }
}

/// Whether every byte of `bytes` is below 128.
pub open spec fn all_ascii(bytes: Seq<u8>) -> bool {
    forall|i: int| 0 <= i < bytes.len() ==> #[trigger] bytes[i] < 128
}

/// A text of bytes below 128 with one more of them is such a text.
pub proof fn lemma_ascii_push(bytes: Seq<u8>, b: u8)
    requires
        all_ascii(bytes),
        b < 128,
    ensures
        all_ascii(bytes.push(b)),
{
    assert forall|i: int| 0 <= i < bytes.push(b).len() implies #[trigger] bytes.push(b)[i]
        < 128 by {
        if i < bytes.len() {
            assert(bytes.push(b)[i] == bytes[i]);
        }
    }
}

/// Appends the decimal digits of `n` to `out`.
pub fn write_number(out: &mut Vec<u8>, n: u64)
    ensures
        final(out)@ == old(out)@ + digits(n as nat),
        all_ascii(old(out)@) ==> all_ascii(final(out)@),
    decreases n,
{
    if n < 10 {
        proof {
            if all_ascii(out@) {
                lemma_ascii_push(out@, (48 + n) as u8);
            }
        }
        out.push(48 + n as u8);
        proof {
            assert(out@ =~= old(out)@ + digits(n as nat));
        }
    } else {
        write_number(out, n / 10);
        proof {
            if all_ascii(out@) {
                lemma_ascii_push(out@, (48 + n % 10) as u8);
            }
        }
        out.push(48 + (n % 10) as u8);
        proof {
            assert(out@ =~= old(out)@ + digits(n as nat));
        }
    }
}

/// Appends the byte `b` to `out`.
pub fn write_byte(out: &mut Vec<u8>, b: u8)
    requires
        b < 128,
    ensures
        final(out)@ == old(out)@.push(b),
        all_ascii(old(out)@) ==> all_ascii(final(out)@),
{
    proof {
        if all_ascii(out@) {
            lemma_ascii_push(out@, b);
        }
    }
    out.push(b);
}

/// The characters that the bytes `bytes` stand for, one for one.
pub open spec fn chars_of(bytes: Seq<u8>) -> Seq<char> {
    Seq::new(bytes.len(), |i: int| bytes[i] as char)
}

/// The bytes as text.
///
/// Calls `String::from_utf8`, which takes bytes that are valid UTF-8 as the
/// text they encode. The contract says that bytes below 128 stand each for
/// the character of that number.
#[verifier::external_body]
pub(crate) fn ascii_string(bytes: Vec<u8>) -> (s: String)
    requires
        all_ascii(bytes@),
    ensures
        s@ == chars_of(bytes@),
{
    String::from_utf8(bytes).unwrap_or_default()
}

} // verus!

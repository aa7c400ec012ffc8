//! The transcripts of chunks, and what is said when one fails.

use std::ops::Range;
use vstd::prelude::*;
use vstd::string::*;

verus! {

/// A character with the Unicode property `White_Space`.
pub open spec fn white_space(c: char) -> bool {
    let code = c as u32;
    ||| 0x09 <= code <= 0x0D
    ||| code == 0x20
    ||| code == 0x85
    ||| code == 0xA0
    ||| code == 0x1680
    ||| 0x2000 <= code <= 0x200A
    ||| code == 0x2028
    ||| code == 0x2029
    ||| code == 0x202F
    ||| code == 0x205F
    ||| code == 0x3000
}

/// `s` from its first character on that is no white space.
pub open spec fn trimmed_start(s: Seq<char>) -> Seq<char>
    decreases s.len(),
{
    if s.len() > 0 && white_space(s[0]) {
        trimmed_start(s.skip(1))
    } else {
        s
    }
}

/// `s` up to its last character that is no white space.
pub open spec fn trimmed_end(s: Seq<char>) -> Seq<char>
    decreases s.len(),
{
    if s.len() > 0 && white_space(s.last()) {
        trimmed_end(s.drop_last())
    } else {
        s
    }
}

/// `s` without white space around it.
pub open spec fn trimmed(s: Seq<char>) -> Seq<char> {
    trimmed_end(trimmed_start(s))
}

/// The texts that are more than white space, without white space around them.
pub open spec fn spoken(texts: Seq<Seq<char>>) -> Seq<Seq<char>>
    decreases texts.len(),
{
    if texts.len() == 0 {
        seq![]
    } else {
        let rest = spoken(texts.drop_last());
        let last = trimmed(texts.last());
        if last.len() == 0 {
            rest
        } else {
            rest.push(last)
        }
    }
}

/// `parts` in order, with one space between any two.
pub open spec fn spaced(parts: Seq<Seq<char>>) -> Seq<char>
    decreases parts.len(),
{
    if parts.len() == 0 {
        seq![]
    } else if parts.len() == 1 {
        parts[0]
    } else {
        spaced(parts.drop_last()) + seq![' '] + parts.last()
    }
}

/// What the strings hold.
pub open spec fn contents(texts: Seq<String>) -> Seq<Seq<char>> {
    Seq::new(texts.len(), |i: int| texts[i]@)
}

/// The transcript that chunks with the transcripts `texts` come down to.
pub open spec fn merged(texts: Seq<Seq<char>>) -> Seq<char> {
    spaced(spoken(texts))
}

/// Whether a character is white space.
pub fn is_white_space(c: char) -> (white: bool)
    ensures
        white == white_space(c),
{
    let code: u32 = c as u32;
    (0x09 <= code && code <= 0x0D) || code == 0x20 || code == 0x85 || code == 0xA0 || code
        == 0x1680 || (0x2000 <= code && code <= 0x200A) || code == 0x2028 || code == 0x2029
        || code == 0x202F || code == 0x205F || code == 0x3000
}

/// `text` without white space around it.
pub fn trim(text: &str) -> (kept: &str)
    ensures
        kept@ == trimmed(text@),
{
    let length: usize = text.unicode_len();
    let ghost s = text@;
    let mut start: usize = 0;
    assert(s.skip(0) =~= s);
    while start < length && is_white_space(text.get_char(start))
        invariant
            s == text@,
            length == s.len(),
            start <= length,
            trimmed_start(s) == trimmed_start(s.skip(start as int)),
        decreases length - start,
    {
        assert(s.skip(start as int).skip(1) =~= s.skip(start + 1));
        start = start + 1;
    }
    let ghost t = s.skip(start as int);
    assert(trimmed_start(s) == t);
    let mut end: usize = length;
    assert(s.subrange(start as int, length as int) =~= t);
    while end > start && is_white_space(text.get_char(end - 1))
        invariant
            s == text@,
            length == s.len(),
            start <= end <= length,
            trimmed_end(t) == trimmed_end(s.subrange(start as int, end as int)),
        decreases end,
    {
        assert(s.subrange(start as int, end as int).drop_last() =~= s.subrange(
            start as int,
            end - 1,
        ));
        end = end - 1;
    }
    text.substring_char(start, end)
}

/// Joins the transcripts of chunks: each without white space around it, empty
/// ones left out, one space between any two.
pub fn merge_english_chunks(texts: &[String]) -> (text: String)
    ensures
        text@ == merged(contents(texts@)),
{
    let ghost all = contents(texts@);
    let mut result: String = String::new();
    let mut any: bool = false;
    let mut index: usize = 0;
    assert(all.take(0) =~= seq![]);
    while index < texts.len()
        invariant
            index <= texts.len(),
            all == contents(texts@),
            result@ == spaced(spoken(all.take(index as int))),
            any <==> spoken(all.take(index as int)).len() > 0,
        decreases texts.len() - index,
    {
        let ghost before = spoken(all.take(index as int));
        let part: &str = trim(texts[index].as_str());
        proof {
            assert(all.take(index + 1).drop_last() =~= all.take(index as int));
            assert(all.take(index + 1).last() == texts@[index as int]@);
        }
        if part.unicode_len() > 0 {
            proof {
                let after = before.push(part@);
                assert(after.drop_last() =~= before);
                reveal_strlit(" ");
                assert(" "@ =~= seq![' ']);
                assert(spoken(all.take(index + 1)) == after);
            }
            if any {
                result.append(" ");
            }
            result.append(part);
            proof {
                if before.len() == 0 {
                    assert(seq![] + part@ =~= part@);
                }
            }
            any = true;
        }
        index = index + 1;
    }
    assert(all.take(texts.len() as int) =~= all);
    result
}

/// The decimal digit of `d`.
pub open spec fn digit(d: nat) -> char {
    ((48 + d) as u8) as char
}

/// `n` in decimal.
pub open spec fn decimal(n: nat) -> Seq<char>
    decreases n,
{
    if n < 10 {
        seq![digit(n)]
    } else {
        decimal(n / 10).push(digit(n % 10))
    }
}

/// Writes `n` in decimal behind `text`.
pub fn append_decimal(text: &mut String, n: usize)
    ensures
        final(text)@ == old(text)@ + decimal(n as nat),
    decreases n,
{
    if n >= 10 {
        append_decimal(text, n / 10);
    }
    let d: usize = n % 10;
    proof {
        reveal_strlit("0");
        reveal_strlit("1");
        reveal_strlit("2");
        reveal_strlit("3");
        reveal_strlit("4");
        reveal_strlit("5");
        reveal_strlit("6");
        reveal_strlit("7");
        reveal_strlit("8");
        reveal_strlit("9");
    }
    let written: &str = if d == 0 {
        "0"
    } else if d == 1 {
        "1"
    } else if d == 2 {
        "2"
    } else if d == 3 {
        "3"
    } else if d == 4 {
        "4"
    } else if d == 5 {
        "5"
    } else if d == 6 {
        "6"
    } else if d == 7 {
        "7"
    } else if d == 8 {
        "8"
    } else {
        "9"
    };
    assert(written@ =~= seq![digit(d as nat)]);
    text.append(written);
    assert(text@ =~= old(text)@ + decimal(n as nat));
}

/// What is said when a sequence of chunks is cancelled before chunk number `chunk`.
pub fn cancelled_before_chunk(chunk: usize) -> (message: String)
    ensures
        message@ == "Transcription cancelled before chunk "@ + decimal(chunk as nat),
{
    let mut message: String = String::from_str("Transcription cancelled before chunk ");
    append_decimal(&mut message, chunk);
    message
}

/// What is said when chunk number `chunk` of `total` fails with `error`.
pub fn chunk_failed(chunk: usize, total: usize, error: &str) -> (message: String)
    ensures
        message@ == "transcribe-cpp transcription failed on chunk "@ + decimal(chunk as nat)
            + "/"@ + decimal(total as nat) + ": "@ + error@,
{
    let mut message: String = String::from_str("transcribe-cpp transcription failed on chunk ");
    append_decimal(&mut message, chunk);
    message.append("/");
    append_decimal(&mut message, total);
    message.append(": ");
    message.append(error);
    message
}

/// What is said when a rolling call on the samples `samples` fails with `error`.
pub fn rolling_call_failed(
    call_number: usize,
    samples: &Range<usize>,
    error: &str,
) -> (message: String)
    ensures
        message@ == "Cohere rolling transcription failed on call "@ + decimal(call_number as nat)
            + " for samples "@ + decimal(samples.start as nat) + ".."@ + decimal(
            samples.end as nat,
        ) + ": "@ + error@,
{
    let mut message: String = String::from_str("Cohere rolling transcription failed on call ");
    append_decimal(&mut message, call_number);
    message.append(" for samples ");
    append_decimal(&mut message, samples.start);
    message.append("..");
    append_decimal(&mut message, samples.end);
    message.append(": ");
    message.append(error);
    message
}

/// What is said when a rolling transcription is cancelled.
pub fn rolling_cancelled() -> (message: String)
    ensures
        message@ == "Cohere rolling transcription was cancelled"@,
{
    String::from_str("Cohere rolling transcription was cancelled")
}

/// Law: trimming takes away white space at both ends and nothing else, and
/// leaves none there.
pub proof fn law_trimming_takes_white_space_at_the_ends(s: Seq<char>)
    ensures
        exists|i: int, j: int|
            {
                &&& 0 <= i <= j <= s.len()
                &&& trimmed(s) == #[trigger] s.subrange(i, j)
                &&& forall|k: int|
                    (0 <= k < i || j <= k < s.len()) ==> white_space(#[trigger] s[k])
                &&& i < j ==> !white_space(s[i]) && !white_space(s[j - 1])
            },
{
    let i = lemma_trimmed_start(s);
    let t = trimmed_start(s);
    let j = lemma_trimmed_end(t);
    assert(t.take(j) =~= s.subrange(i, i + j));
    assert forall|k: int| (0 <= k < i || i + j <= k < s.len()) implies white_space(
        #[trigger] s[k],
    ) by {
        if k >= i {
            assert(t[k - i] == s[k]);
        }
    }
    if j > 0 {
        assert(t[0] == s[i]);
        assert(t[j - 1] == s[i + j - 1]);
    }
}

proof fn lemma_trimmed_start(s: Seq<char>) -> (i: int)
    ensures
        0 <= i <= s.len(),
        trimmed_start(s) == s.skip(i),
        forall|k: int| 0 <= k < i ==> white_space(#[trigger] s[k]),
        i < s.len() ==> !white_space(s[i]),
    decreases s.len(),
{
    if s.len() > 0 && white_space(s[0]) {
        let t = s.skip(1);
        let i = lemma_trimmed_start(t);
        assert(t.skip(i) =~= s.skip(i + 1));
        assert forall|k: int| 0 <= k < i + 1 implies white_space(#[trigger] s[k]) by {
            if k > 0 {
                assert(t[k - 1] == s[k]);
            }
        }
        if i < t.len() {
            assert(t[i] == s[i + 1]);
        }
        i + 1
    } else {
        assert(s.skip(0) =~= s);
        0
    }
}

proof fn lemma_trimmed_end(s: Seq<char>) -> (j: int)
    ensures
        0 <= j <= s.len(),
        trimmed_end(s) == s.take(j),
        forall|k: int| j <= k < s.len() ==> white_space(#[trigger] s[k]),
        j > 0 ==> !white_space(s[j - 1]),
    decreases s.len(),
{
    if s.len() > 0 && white_space(s.last()) {
        let t = s.drop_last();
        let j = lemma_trimmed_end(t);
        assert(t.take(j) =~= s.take(j));
        assert forall|k: int| j <= k < s.len() implies white_space(#[trigger] s[k]) by {
            if k < t.len() {
                assert(t[k] == s[k]);
            }
        }
        j
    } else {
        assert(s.take(s.len() as int) =~= s);
        s.len() as int
    }
}

/// Law: a chunk whose transcript is nothing but white space does not show in the
/// merged transcript.
pub proof fn law_blank_chunks_do_not_show(
    before: Seq<Seq<char>>,
    blank: Seq<char>,
    after: Seq<Seq<char>>,
)
    requires
        forall|k: int| 0 <= k < blank.len() ==> white_space(#[trigger] blank[k]),
    ensures
        merged(before + seq![blank] + after) == merged(before + after),
{
    lemma_blank_is_trimmed_away(blank);
    lemma_spoken_without_blank(before, blank, after);
}

proof fn lemma_blank_is_trimmed_away(blank: Seq<char>)
    requires
        forall|k: int| 0 <= k < blank.len() ==> white_space(#[trigger] blank[k]),
    ensures
        trimmed(blank).len() == 0,
{
    let i = lemma_trimmed_start(blank);
    assert(i == blank.len());
}

proof fn lemma_spoken_without_blank(
    before: Seq<Seq<char>>,
    blank: Seq<char>,
    after: Seq<Seq<char>>,
)
    requires
        trimmed(blank).len() == 0,
    ensures
        spoken(before + seq![blank] + after) == spoken(before + after),
    decreases after.len(),
{
    let with = before + seq![blank] + after;
    let without = before + after;
    if after.len() == 0 {
        assert(with.drop_last() =~= before);
        assert(without =~= before);
    } else {
        assert(with.drop_last() =~= before + seq![blank] + after.drop_last());
        assert(without.drop_last() =~= before + after.drop_last());
        lemma_spoken_without_blank(before, blank, after.drop_last());
    }
}

/// Law: one more transcript is put behind what the others come down to, with a
/// space in between where there is something on both sides, however many there
/// are; a blank one changes nothing, and no transcripts come down to nothing.
pub proof fn law_one_more_transcript_goes_behind(texts: Seq<Seq<char>>, text: Seq<char>)
    ensures
        merged(Seq::empty()).len() == 0,
        trimmed(text).len() == 0 ==> merged(texts.push(text)) == merged(texts),
        trimmed(text).len() > 0 && merged(texts).len() == 0 ==> merged(texts.push(text))
            == trimmed(text),
        trimmed(text).len() > 0 && merged(texts).len() > 0 ==> merged(texts.push(text)) == merged(
            texts,
        ) + seq![' '] + trimmed(text),
{
    let more = texts.push(text);
    assert(more.drop_last() =~= texts);
    lemma_spoken_is_heard(texts);
    let before = spoken(texts);
    if trimmed(text).len() > 0 {
        let after = before.push(trimmed(text));
        assert(spoken(more) == after);
        assert(after.drop_last() =~= before);
        assert(spaced(after) == if before.len() == 0 {
            trimmed(text)
        } else {
            spaced(before) + seq![' '] + trimmed(text)
        });
    }
}

/// Transcripts come down to nothing where none of them says anything.
proof fn lemma_spoken_is_heard(texts: Seq<Seq<char>>)
    ensures
        merged(texts).len() == 0 <==> spoken(texts).len() == 0,
{
    let parts = spoken(texts);
    if parts.len() > 0 {
        lemma_spoken_parts(texts, parts.len() - 1);
    }
}

proof fn lemma_spoken_parts(texts: Seq<Seq<char>>, i: int)
    requires
        0 <= i < spoken(texts).len(),
    ensures
        spoken(texts)[i].len() > 0,
    decreases texts.len(),
{
    if i < spoken(texts.drop_last()).len() {
        lemma_spoken_parts(texts.drop_last(), i);
    }
}

/// Law: a list of strings holds one text per string, each in its place.
pub proof fn law_contents_keep_their_place(texts: Seq<String>)
    ensures
        contents(texts).len() == texts.len(),
        forall|i: int| 0 <= i < texts.len() ==> #[trigger] contents(texts)[i] == texts[i]@,
{
}

/// Law: white space is what Unicode calls so: the tab and the four control
/// characters behind it, the space, the next-line character, and the blanks and
/// separators beyond ASCII.
pub proof fn law_what_is_white_space(c: char)
    ensures
        white_space(c) <==> (c == '\t' || c == '\n' || c == '\u{b}' || c == '\u{c}' || c == '\r' || c
            == ' ' || c == '\u{85}' || c == '\u{a0}' || c == '\u{1680}' || ('\u{2000}' as u32
            <= c as u32 <= '\u{200a}' as u32) || c == '\u{2028}' || c == '\u{2029}' || c
            == '\u{202f}' || c == '\u{205f}' || c == '\u{3000}'),
{
}

/// The number that decimal digits stand for.
pub open spec fn number(digits: Seq<char>) -> int
    decreases digits.len(),
{
    if digits.len() == 0 {
        0
    } else {
        10 * number(digits.drop_last()) + (digits.last() as int - '0' as int)
    }
}

/// Law: a number in decimal is made of digits, stands for that number, and has no
/// needless zero in front.
pub proof fn law_decimal_digits_stand_for_the_number(n: nat)
    ensures
        number(decimal(n)) == n,
        decimal(n).len() > 0,
        forall|i: int|
            0 <= i < decimal(n).len() ==> '0' as int <= (#[trigger] decimal(n)[i]) as int
                <= '9' as int,
        n > 0 ==> decimal(n)[0] != '0',
        n == 0 ==> decimal(n).len() == 1,
    decreases n,
{
    lemma_digit(n % 10);
    if n < 10 {
        assert(decimal(n).drop_last() =~= seq![]);
        assert(number(decimal(n).drop_last()) == 0);
    } else {
        law_decimal_digits_stand_for_the_number(n / 10);
        assert(decimal(n).drop_last() =~= decimal(n / 10));
        assert(decimal(n).last() == digit(n % 10));
    }
}

proof fn lemma_digit(d: nat)
    requires
        d < 10,
    ensures
        digit(d) as int == '0' as int + d,
        digit(d) == '0' <==> d == 0,
{
}

} // verus!

//! Parsing of word-level OCR output.
//!
//! The OCR tool prints one tab-separated row per item; level-5 rows are
//! individual words with bounding boxes and a confidence percentage. Words
//! with confidence below 30% or empty text are dropped; a newline joins the
//! text when the line index changes. The subprocess itself runs outside the
//! library; this module owns the format.

use vstd::prelude::*;
use crate::error::CoreError;
use crate::schema::{NewBoundingBox, NewBoundingBoxV};
use crate::text;

verus! {

/// Result of running OCR on a single screenshot.
#[derive(Debug, Clone)]
pub struct TesseractOutput {
    pub full_text: String,
    pub bounding_boxes: Vec<NewBoundingBox>,
    pub word_count: i32,
}

/// Minimum confidence for keeping a word, in hundredths of a percent.
pub const MIN_CONFIDENCE_HUNDREDTHS: i64 = 3000;

/// One accepted word of the tabular output.
#[verifier::ext_equal]
pub ghost struct WordV {
    pub text: Seq<char>,
    pub conf: int,
    pub line_num: int,
    pub x: int,
    pub y: int,
    pub width: int,
    pub height: int,
}

// ---------------------------------------------------------------------------
// Field grammar
// ---------------------------------------------------------------------------

/// A plain decimal integer with optional leading minus, valid only when its
/// magnitude fits the signed 64-bit range.
pub open spec fn spec_parse_int(s: Seq<char>) -> Option<int> {
    if s.len() > 0 && s[0] == '-' {
        let body = s.drop_first();
        if body.len() > 0 && text::all_digits(body) && text::digits_value(body)
            <= 0x8000_0000_0000_0000 {
            Some(-(text::digits_value(body) as int))
        } else {
            None
        }
    } else if s.len() > 0 && text::all_digits(s) && text::digits_value(s)
        <= 0x7fff_ffff_ffff_ffff {
        Some(text::digits_value(s) as int)
    } else {
        None
    }
}

/// The value of up to two fraction digits, in hundredths.
pub open spec fn frac_hundredths(s: Seq<char>) -> int {
    if s.len() == 0 {
        0
    } else if s.len() == 1 {
        10 * ((s[0] as u32) - 48)
    } else {
        10 * ((s[0] as u32) - 48) + ((s[1] as u32) - 48)
    }
}

/// A decimal percentage such as `96.5`, read as integer hundredths (9650).
/// Only plain `[-]digits[.digits]` forms up to 10000 are accepted; fraction
/// digits beyond the second are ignored.
pub open spec fn spec_parse_conf(s: Seq<char>) -> Option<int> {
    let neg = s.len() > 0 && s[0] == '-';
    let body = if neg {
        s.drop_first()
    } else {
        s
    };
    let parts = text::spec_split(body, '.');
    if parts.len() == 1 && parts[0].len() > 0 && text::all_digits(parts[0]) && text::digits_value(
        parts[0],
    ) <= 10000 {
        if neg {
            Some(-100 * (text::digits_value(parts[0]) as int))
        } else {
            Some(100 * (text::digits_value(parts[0]) as int))
        }
    } else if parts.len() == 2 && parts[0].len() > 0 && text::all_digits(parts[0])
        && text::all_digits(parts[1]) && text::digits_value(parts[0]) <= 10000 {
        let v = 100 * (text::digits_value(parts[0]) as int) + frac_hundredths(parts[1]);
        if neg {
            Some(-v)
        } else {
            Some(v)
        }
    } else {
        None
    }
}

/// An integer field that falls back to zero when malformed, clamped to the
/// 32-bit range.
pub open spec fn int_field_or_zero(s: Seq<char>) -> int {
    match spec_parse_int(s) {
        Some(v) => if -0x8000_0000 <= v <= 0x7fff_ffff {
            v
        } else {
            0
        },
        None => 0,
    }
}

/// The accepted word of one tabular row, if any: at least twelve fields,
/// level 5, non-empty trimmed text, confidence at least 30%.
pub open spec fn spec_word(line: Seq<char>) -> Option<WordV> {
    let f = text::spec_split(line, '\t');
    if f.len() < 12 {
        None
    } else if spec_parse_int(f[0]) != Some(5int) {
        None
    } else {
        let conf = match spec_parse_conf(f[10]) {
            Some(c) => c,
            None => -100,
        };
        let word = text::spec_trim(f[11]);
        if word.len() == 0 || conf < MIN_CONFIDENCE_HUNDREDTHS as int {
            None
        } else {
            Some(
                WordV {
                    text: word,
                    conf: conf,
                    line_num: int_field_or_zero(f[4]),
                    x: int_field_or_zero(f[6]),
                    y: int_field_or_zero(f[7]),
                    width: int_field_or_zero(f[8]),
                    height: int_field_or_zero(f[9]),
                },
            )
        }
    }
}

/// The words accepted from the rows at index `i` onward (row zero is the
/// header and is skipped by the caller).
pub open spec fn spec_words(lines: Seq<Seq<char>>, i: int) -> Seq<WordV>
    decreases lines.len() - i,
{
    if i < 0 || i >= lines.len() {
        Seq::<WordV>::empty()
    } else {
        match spec_word(lines[i]) {
            Some(w) => seq![w] + spec_words(lines, i + 1),
            None => spec_words(lines, i + 1),
        }
    }
}

/// All words accepted from a tabular document.
pub open spec fn spec_doc_words(tsv: Seq<char>) -> Seq<WordV> {
    spec_words(text::spec_split(tsv, '\n'), 1)
}

/// There is at most one accepted word per row.
pub proof fn lemma_spec_words_len(lines: Seq<Seq<char>>, i: int)
    requires
        0 <= i <= lines.len(),
    ensures
        spec_words(lines, i).len() <= lines.len() - i,
    decreases lines.len() - i,
{
    if i < lines.len() {
        lemma_spec_words_len(lines, i + 1);
    }
}

/// The full text the accepted words spell: each word follows the previous
/// one after a space, or after a newline when the line index changed.
pub open spec fn spec_full_text(words: Seq<WordV>) -> Seq<char>
    decreases words.len(),
{
    if words.len() == 0 {
        Seq::<char>::empty()
    } else if words.len() == 1 {
        words[0].text
    } else {
        let prev = spec_full_text(words.drop_last());
        let sep: Seq<char> = if words[words.len() - 1].line_num != words[words.len()
            - 2].line_num {
            seq!['\n']
        } else {
            seq![' ']
        };
        prev + sep + words.last().text
    }
}

/// The bounding box an accepted word produces.
pub open spec fn box_of_word(w: WordV) -> NewBoundingBoxV {
    NewBoundingBoxV {
        text_content: w.text,
        x: w.x,
        y: w.y,
        width: w.width,
        height: w.height,
        confidence_hundredths: Some(w.conf),
    }
}

// ---------------------------------------------------------------------------
// Executable parsers
// ---------------------------------------------------------------------------

/// Parse an optionally signed decimal integer.
fn parse_int_chars(v: &Vec<char>) -> (r: Option<i64>)
    ensures
        match r {
            Some(x) => spec_parse_int(v@) == Some(x as int),
            None => spec_parse_int(v@) is None,
        },
{
    if v.len() == 0 {
        return None;
    }
    if v[0] == '-' {
        proof {
            assert(v@.drop_first() =~= v@.subrange(1, v@.len() as int));
        }
        match text::parse_digits(v, 1, v.len()) {
            Some(mag) => {
                if mag <= 0x8000_0000_0000_0000u64 {
                    if mag == 0x8000_0000_0000_0000u64 {
                        Some(i64::MIN)
                    } else {
                        Some(-(mag as i64))
                    }
                } else {
                    None
                }
            },
            None => None,
        }
    } else {
        proof {
            assert(v@.subrange(0, v@.len() as int) =~= v@);
        }
        match text::parse_digits(v, 0, v.len()) {
            Some(mag) => {
                if mag <= 0x7fff_ffff_ffff_ffffu64 {
                    Some(mag as i64)
                } else {
                    None
                }
            },
            None => None,
        }
    }
}

/// Parse a confidence percentage into integer hundredths.
fn parse_conf_chars(v: &Vec<char>) -> (r: Option<i64>)
    ensures
        match r {
            Some(x) => spec_parse_conf(v@) == Some(x as int),
            None => spec_parse_conf(v@) is None,
        },
{
    let mut body: Vec<char> = Vec::new();
    let neg = v.len() > 0 && v[0] == '-';
    let from: usize = if neg {
        1
    } else {
        0
    };
    let mut i: usize = from;
    while i < v.len()
        invariant
            from <= i <= v@.len(),
            body@ == v@.subrange(from as int, i as int),
        decreases v@.len() - i,
    {
        body.push(v[i]);
        i = i + 1;
        proof {
            assert(body@ =~= v@.subrange(from as int, i as int));
        }
    }
    proof {
        if neg {
            assert(body@ =~= v@.drop_first());
        } else {
            assert(body@ =~= v@);
        }
    }
    let parts = text::split_chars(&body, '.');
    let ghost pv = text::spec_split(body@, '.');
    if parts.len() == 1 {
        proof {
            assert(text::token_views(parts@)[0] == parts@[0]@);
        }
        proof {
            assert(parts@[0]@.subrange(0, parts@[0]@.len() as int) =~= parts@[0]@);
        }
        match text::parse_digits(&parts[0], 0, parts[0].len()) {
            Some(mag) => {
                if mag <= 10000 {
                    let h = (mag as i64) * 100;
                    if neg {
                        Some(-h)
                    } else {
                        Some(h)
                    }
                } else {
                    None
                }
            },
            None => None,
        }
    } else if parts.len() == 2 {
        proof {
            assert(text::token_views(parts@)[0] == parts@[0]@);
            assert(text::token_views(parts@)[1] == parts@[1]@);
        }
        let int_part = text::parse_digits(&parts[0], 0, parts[0].len());
        proof {
            assert(parts@[0]@.subrange(0, parts@[0]@.len() as int) =~= parts@[0]@);
        }
        // the fraction must be all digits even where only two count
        let frac = &parts[1];
        let all_ok = text::all_digits_in(frac);
        match int_part {
            Some(mag) => {
                if all_ok && mag <= 10000 {
                    let f0: i64 = if frac.len() >= 1 {
                        10 * (((frac[0] as u32) - 48) as i64)
                    } else {
                        0
                    };
                    let f1: i64 = if frac.len() >= 2 {
                        ((frac[1] as u32) - 48) as i64
                    } else {
                        0
                    };
                    let h = (mag as i64) * 100 + f0 + f1;
                    if neg {
                        Some(-h)
                    } else {
                        Some(h)
                    }
                } else {
                    None
                }
            },
            None => None,
        }
    } else {
        None
    }
}

/// An integer field with fallback to zero, clamped to 32 bits.
fn int_field(v: &Vec<char>) -> (r: i32)
    ensures
        r as int == int_field_or_zero(v@),
{
    match parse_int_chars(v) {
        Some(x) => {
            if x >= -0x8000_0000i64 && x <= 0x7fff_ffffi64 {
                x as i32
            } else {
                0
            }
        },
        None => 0,
    }
}

/// Parse word-level tabular OCR output into the joined text, the word
/// bounding boxes, and the word count. Fails only when the word count
/// cannot be represented.
pub fn parse_tsv_output(tsv: &str) -> (r: Result<TesseractOutput, CoreError>)
    ensures
        r is Ok <==> spec_doc_words(tsv@).len() <= i32::MAX,
        r is Ok ==> ({
            let words = spec_doc_words(tsv@);
            let out = r.unwrap();
            &&& out.full_text@ == spec_full_text(words)
            &&& out.word_count as int == words.len()
            &&& out.bounding_boxes@.len() == words.len()
            &&& forall|k: int|
                0 <= k < words.len() ==> (#[trigger] out.bounding_boxes@[k])@ == box_of_word(
                    words[k],
                )
        }),
{
    let chars = text::chars_of(tsv);
    let lines = text::split_chars(&chars, '\n');
    let ghost lv = text::spec_split(tsv@, '\n');
    let n = lines.len();
    let mut boxes: Vec<NewBoundingBox> = Vec::new();
    let mut full: Vec<char> = Vec::new();
    let mut count: usize = 0;
    let mut last_line_num: i32 = 0;
    let mut i: usize = 1;
    proof {
        assert(text::token_views(lines@) == lv);
        assert(spec_words(lv, 1) == spec_doc_words(tsv@));
        lemma_spec_words_len(lv, 1);
    }
    while i < n
        invariant
            n == lv.len(),
            1 <= i <= n,
            text::token_views(lines@) == lv,
            spec_doc_words(tsv@) == spec_words(lv, 1),
            spec_words(lv, 1) =~= spec_words(lv, 1).subrange(
                0,
                count as int,
            ) + spec_words(lv, i as int),
            count == spec_words(lv, 1).len() - spec_words(lv, i as int).len(),
            count <= spec_words(lv, 1).len(),
            spec_words(lv, 1).len() <= n - 1,
            full@ == spec_full_text(spec_words(lv, 1).subrange(0, count as int)),
            count > 0 ==> last_line_num as int == spec_words(lv, 1)[count - 1].line_num,
            boxes@.len() == count,
            forall|k: int|
                0 <= k < count ==> (#[trigger] boxes@[k])@ == box_of_word(
                    spec_words(lv, 1)[k],
                ),
        decreases n - i,
    {
        let ghost wsofar = spec_words(lv, 1).subrange(0, count as int);
        let ghost line = lv[i as int];
        proof {
            assert(text::token_views(lines@)[i as int] == lines@[i as int]@);
            assert(spec_words(lv, i as int) =~= match spec_word(line) {
                Some(w) => seq![w] + spec_words(lv, i + 1),
                None => spec_words(lv, i + 1),
            });
        }
        let fields = text::split_chars(&lines[i], '\t');
        let ghost fv = text::spec_split(line, '\t');
        proof {
            assert(text::token_views(fields@) == fv);
        }
        if fields.len() >= 12 {
            proof {
                assert(text::token_views(fields@)[0] == fields@[0]@);
                assert(text::token_views(fields@)[4] == fields@[4]@);
                assert(text::token_views(fields@)[6] == fields@[6]@);
                assert(text::token_views(fields@)[7] == fields@[7]@);
                assert(text::token_views(fields@)[8] == fields@[8]@);
                assert(text::token_views(fields@)[9] == fields@[9]@);
                assert(text::token_views(fields@)[10] == fields@[10]@);
                assert(text::token_views(fields@)[11] == fields@[11]@);
            }
            let level = parse_int_chars(&fields[0]);
            let is_word = match level {
                Some(l) => l == 5,
                None => false,
            };
            if is_word {
                let conf: i64 = match parse_conf_chars(&fields[10]) {
                    Some(c) => c,
                    None => -100,
                };
                let word_chars = text::trim_chars(&fields[11]);
                if word_chars.len() > 0 && conf >= MIN_CONFIDENCE_HUNDREDTHS {
                    // accepted word
                    let line_num = int_field(&fields[4]);
                    let x = int_field(&fields[6]);
                    let y = int_field(&fields[7]);
                    let w = int_field(&fields[8]);
                    let h = int_field(&fields[9]);
                    let ghost word = spec_word(line).unwrap();
                    proof {
                        assert(spec_word(line) == Some(
                            WordV {
                                text: word_chars@,
                                conf: conf as int,
                                line_num: line_num as int,
                                x: x as int,
                                y: y as int,
                                width: w as int,
                                height: h as int,
                            },
                        ));
                        assert(spec_words(lv, 1)[count as int] == word);
                    }
                    if count > 0 {
                        if line_num != last_line_num {
                            full.push('\n');
                        } else {
                            full.push(' ');
                        }
                    }
                    let ghost base = full@;
                    let word_text = text::string_from_chars(&word_chars);
                    let mut q: usize = 0;
                    while q < word_chars.len()
                        invariant
                            q <= word_chars@.len(),
                            full@ == base + word_chars@.subrange(0, q as int),
                        decreases word_chars@.len() - q,
                    {
                        full.push(word_chars[q]);
                        q = q + 1;
                        proof {
                            assert(full@ =~= base + word_chars@.subrange(0, q as int));
                        }
                    }
                    proof {
                        assert(full@ =~= base + word_chars@);
                    }
                    boxes.push(
                        NewBoundingBox {
                            text_content: word_text,
                            x,
                            y,
                            width: w,
                            height: h,
                            confidence_hundredths: Some(conf),
                        },
                    );
                    count = count + 1;
                    let ghost last_line_num_prev = last_line_num;
                    last_line_num = line_num;
                    proof {
                        assert(spec_words(lv, 1).subrange(0, count as int) =~= wsofar.push(word));
                        assert(wsofar.push(word).drop_last() =~= wsofar);
                        if wsofar.len() == 0 {
                            assert(base =~= Seq::<char>::empty());
                            assert(full@ =~= word.text);
                            assert(spec_full_text(wsofar.push(word)) == word.text);
                        } else {
                            assert(wsofar.last().line_num == last_line_num_prev as int);
                            if word.line_num != wsofar.last().line_num {
                                assert(base =~= spec_full_text(wsofar).push('\n'));
                                assert(spec_full_text(wsofar) + seq!['\n'] =~= spec_full_text(
                                    wsofar,
                                ).push('\n'));
                            } else {
                                assert(base =~= spec_full_text(wsofar).push(' '));
                                assert(spec_full_text(wsofar) + seq![' '] =~= spec_full_text(
                                    wsofar,
                                ).push(' '));
                            }
                            assert(full@ =~= spec_full_text(wsofar.push(word)));
                        }
                        assert(full@ =~= spec_full_text(spec_words(lv, 1).subrange(0, count as int)));
                    }
                } else {
                    proof {
                        assert(spec_word(line) is None);
                    }
                }
            } else {
                proof {
                    assert(spec_word(line) is None);
                }
            }
        } else {
            proof {
                assert(spec_word(line) is None);
            }
        }
        i = i + 1;
    }
    proof {
        assert(spec_words(lv, n as int) =~= Seq::<WordV>::empty());
        assert(spec_words(lv, 1).subrange(0, count as int) =~= spec_words(lv, 1));
    }
    if count > 0x7fff_ffffusize {
        return Err(CoreError::Ocr(String::from_str("word count out of range")));
    }
    let full_text = text::string_from_chars(&full);
    Ok(TesseractOutput { full_text, bounding_boxes: boxes, word_count: count as i32 })
}

/// Join word parts: a `"\n"` part becomes a newline; any other part is a
/// word, preceded by a space unless it opens the text or follows a newline.
pub fn join_words(parts: &Vec<String>) -> (r: String)
    ensures
        r@ == spec_join(crate::window_info::str_views(parts@), 0, Seq::<char>::empty()),
{
    let mut out: Vec<char> = Vec::new();
    let mut i: usize = 0;
    while i < parts.len()
        invariant
            i <= parts@.len(),
            spec_join(crate::window_info::str_views(parts@), 0, Seq::<char>::empty()) == spec_join(
                crate::window_info::str_views(parts@),
                i as int,
                out@,
            ),
        decreases parts@.len() - i,
    {
        let ghost pv = crate::window_info::str_views(parts@);
        proof {
            assert(pv[i as int] == parts@[i as int]@);
        }
        let part_chars = text::chars_of(parts[i].as_str());
        let is_newline = part_chars.len() == 1 && part_chars[0] == '\n';
        if is_newline {
            proof {
                assert(pv[i as int] =~= seq!['\n']);
            }
            out.push('\n');
        } else {
            proof {
                if pv[i as int].len() == 1 && pv[i as int][0] == '\n' {
                    assert(false);
                }
            }
            if out.len() > 0 && out[out.len() - 1] != '\n' {
                out.push(' ');
            }
            let ghost before = out@;
            let mut q: usize = 0;
            while q < part_chars.len()
                invariant
                    q <= part_chars@.len(),
                    out@ == before + part_chars@.subrange(0, q as int),
                decreases part_chars@.len() - q,
            {
                out.push(part_chars[q]);
                q = q + 1;
                proof {
                    assert(out@ =~= before + part_chars@.subrange(0, q as int));
                }
            }
            proof {
                assert(out@ =~= before + pv[i as int]);
            }
        }
        i = i + 1;
    }
    text::string_from_chars(&out)
}

/// The text the parts spell, joined from index `i` with `acc` already
/// written.
pub open spec fn spec_join(parts: Seq<Seq<char>>, i: int, acc: Seq<char>) -> Seq<char>
    decreases parts.len() - i,
{
    if i < 0 || i >= parts.len() {
        acc
    } else if parts[i].len() == 1 && parts[i][0] == '\n' {
        spec_join(parts, i + 1, acc.push('\n'))
    } else {
        let with_sep = if acc.len() > 0 && acc.last() != '\n' {
            acc.push(' ')
        } else {
            acc
        };
        spec_join(parts, i + 1, with_sep + parts[i])
    }
}

} // verus!

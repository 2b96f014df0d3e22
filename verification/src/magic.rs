//! The signature table: a line-oriented list of byte-prefix patterns with
//! file-type labels, and the first-match lookup over it.
//!
//! Each non-blank, non-comment line holds a whitespace-separated sequence of
//! hexadecimal bytes, one `;` separator, and a free-text label. The parser
//! also reports the longest pattern length, which bounds how many leading
//! bytes of a file a caller must read for lookup.

use vstd::prelude::*;
use crate::errors::FormatError;
use crate::text::{
    count_char, first_index_of, hex_byte_of, lines_of, split_lines, split_tokens,
    scan_char, substring_to_string, to_chars, tokens_of, trim_range, trim_spec,
    parse_hex_byte,
};

verus! {

/// How one line of the signature table reads.
pub enum LineParse {
    /// Blank, or a comment.
    Skip,
    /// A pattern with its label.
    Entry { pattern: Seq<u8>, label: Seq<char> },
    /// Not exactly one separator, or an empty pattern.
    BadFormat,
    /// A token that is not a hexadecimal byte.
    BadHex,
}

/// The byte values of a token sequence, if every token is a hexadecimal byte.
pub open spec fn hex_bytes_of_toks(toks: Seq<Seq<char>>) -> Option<Seq<u8>>
    decreases toks.len(),
{
    if toks.len() == 0 {
        Some(Seq::empty())
    } else {
        match (hex_bytes_of_toks(toks.drop_last()), hex_byte_of(toks.last())) {
            (Some(bs), Some(b)) => Some(bs.push(b)),
            _ => None,
        }
    }
}

pub proof fn lemma_hex_bytes_some_all(toks: Seq<Seq<char>>)
    requires
        hex_bytes_of_toks(toks) is Some,
    ensures
        hex_bytes_of_toks(toks)->0.len() == toks.len(),
        forall|k: int| 0 <= k < toks.len() ==> hex_byte_of(#[trigger] toks[k]) is Some,
    decreases toks.len(),
{
    if toks.len() > 0 {
        lemma_hex_bytes_some_all(toks.drop_last());
        assert forall|k: int| 0 <= k < toks.len() implies hex_byte_of(#[trigger] toks[k]) is Some by {
            if k < toks.len() - 1 {
                assert(toks.drop_last()[k] == toks[k]);
            }
        }
    }
}

/// The reading of one line: skipped, an entry, or one of the two errors.
pub open spec fn parse_line_spec(line: Seq<char>) -> LineParse {
    let t = trim_spec(line);
    if t.len() == 0 || t[0] == '#' {
        LineParse::Skip
    } else if count_char(t, ';') != 1 {
        LineParse::BadFormat
    } else {
        let p = first_index_of(t, ';');
        let hex_part = trim_spec(t.subrange(0, p));
        let label = trim_spec(t.subrange(p + 1, t.len() as int));
        let toks = tokens_of(hex_part);
        if toks.len() == 0 {
            LineParse::BadFormat
        } else {
            match hex_bytes_of_toks(toks) {
                Some(bs) => LineParse::Entry { pattern: bs, label },
                None => LineParse::BadHex,
            }
        }
    }
}

/// The first malformed line of the table, with which of the two errors it
/// raised.
pub enum SigParseError {
    Format { line: Seq<char> },
    Hex { line: Seq<char> },
}

/// The reading of a whole table: its entries in line order, or the error of
/// the first malformed line.
pub open spec fn parse_defs_spec(lines: Seq<Seq<char>>) -> Result<
    Seq<(Seq<u8>, Seq<char>)>,
    SigParseError,
>
    decreases lines.len(),
{
    if lines.len() == 0 {
        Ok(Seq::empty())
    } else {
        match parse_defs_spec(lines.drop_last()) {
            Err(e) => Err(e),
            Ok(es) => match parse_line_spec(lines.last()) {
                LineParse::Skip => Ok(es),
                LineParse::Entry { pattern, label } => Ok(es.push((pattern, label))),
                LineParse::BadFormat => Err(
                    SigParseError::Format { line: trim_spec(lines.last()) },
                ),
                LineParse::BadHex => Err(SigParseError::Hex { line: trim_spec(lines.last()) }),
            },
        }
    }
}

/// An error on an earlier line is kept whatever the later lines hold.
pub proof fn lemma_error_persists(lines: Seq<Seq<char>>, i: int, e: SigParseError)
    requires
        0 <= i <= lines.len(),
        parse_defs_spec(lines.take(i)) == Err::<Seq<(Seq<u8>, Seq<char>)>, SigParseError>(e),
    ensures
        parse_defs_spec(lines) == Err::<Seq<(Seq<u8>, Seq<char>)>, SigParseError>(e),
    decreases lines.len() - i,
{
    if i == lines.len() {
        assert(lines.take(i) =~= lines);
    } else {
        assert(lines.take(i + 1).drop_last() =~= lines.take(i));
        assert(lines.take(i + 1).last() == lines[i]);
        lemma_error_persists(lines, i + 1, e);
    }
}

/// The length of the longest pattern among the entries (0 when there are
/// none).
pub open spec fn max_pattern_len_of(entries: Seq<(Seq<u8>, Seq<char>)>) -> nat
    decreases entries.len(),
{
    if entries.len() == 0 {
        0
    } else {
        let m = max_pattern_len_of(entries.drop_last());
        if entries.last().0.len() > m {
            entries.last().0.len()
        } else {
            m
        }
    }
}

/// Every pattern of a well-parsed table is non-empty.
pub proof fn lemma_parsed_patterns_nonempty(lines: Seq<Seq<char>>)
    requires
        parse_defs_spec(lines) is Ok,
    ensures
        forall|k: int|
            0 <= k < parse_defs_spec(lines)->Ok_0.len() ==> (#[trigger] parse_defs_spec(
                lines,
            )->Ok_0[k]).0.len() > 0,
    decreases lines.len(),
{
    if lines.len() > 0 {
        lemma_parsed_patterns_nonempty(lines.drop_last());
        match parse_line_spec(lines.last()) {
            LineParse::Entry { .. } => {
                let t = trim_spec(lines.last());
                let p = first_index_of(t, ';');
                let toks = tokens_of(trim_spec(t.subrange(0, p)));
                lemma_hex_bytes_some_all(toks);
            },
            _ => {},
        }
    }
}

/// The longest pattern length is an upper bound reached by some entry.
pub proof fn lemma_max_pattern_len_correct(entries: Seq<(Seq<u8>, Seq<char>)>)
    ensures
        forall|k: int|
            0 <= k < entries.len() ==> (#[trigger] entries[k]).0.len() <= max_pattern_len_of(
                entries,
            ),
        entries.len() > 0 ==> exists|k: int|
            0 <= k < entries.len() && (#[trigger] entries[k]).0.len() == max_pattern_len_of(
                entries,
            ),
    decreases entries.len(),
{
    if entries.len() > 0 {
        lemma_max_pattern_len_correct(entries.drop_last());
        let m = max_pattern_len_of(entries.drop_last());
        assert forall|k: int|
            0 <= k < entries.len() implies (#[trigger] entries[k]).0.len() <= max_pattern_len_of(
            entries,
        ) by {
            if k < entries.len() - 1 {
                assert(entries.drop_last()[k] == entries[k]);
            }
        }
        if entries.last().0.len() > m {
            assert(entries[entries.len() - 1].0.len() == max_pattern_len_of(entries));
        } else {
            if entries.len() > 1 {
                let j = choose|j: int|
                    0 <= j < entries.drop_last().len() && (#[trigger] entries.drop_last()[j]).0.len()
                        == m;
                assert(entries[j].0.len() == max_pattern_len_of(entries));
            } else {
                assert(entries[0].0.len() == 0 && max_pattern_len_of(entries) == 0);
            }
        }
    }
}

/// The deep view of an entry vector.
pub open spec fn defs_view(defs: Seq<(Vec<u8>, String)>) -> Seq<(Seq<u8>, Seq<char>)> {
    defs.map_values(|d: (Vec<u8>, String)| (d.0@, d.1@))
}

/// Parses a signature-table source. On success the entries come in line
/// order, paired with the longest pattern length; on the first malformed
/// line the matching `FormatError` names that line, trimmed.
#[verifier::loop_isolation(false)]
pub fn parse_definitions_file(source: &str) -> (r: Result<
    (Vec<(Vec<u8>, String)>, usize),
    FormatError,
>)
    ensures
        match r {
            Ok(pair) => parse_defs_spec(lines_of(source@)) == Ok::<
                Seq<(Seq<u8>, Seq<char>)>,
                SigParseError,
            >(defs_view(pair.0@)) && pair.1 as nat == max_pattern_len_of(defs_view(pair.0@)) && forall|
                k: int,
            | 0 <= k < pair.0@.len() ==> (#[trigger] pair.0@[k]).0@.len() > 0,
            Err(e) => match e {
                FormatError::BadLine { line } => parse_defs_spec(lines_of(source@)) == Err::<
                    Seq<(Seq<u8>, Seq<char>)>,
                    SigParseError,
                >(SigParseError::Format { line: line@ }),
                FormatError::BadHexToken { line } => parse_defs_spec(lines_of(source@)) == Err::<
                    Seq<(Seq<u8>, Seq<char>)>,
                    SigParseError,
                >(SigParseError::Hex { line: line@ }),
                FormatError::BadOwnerId { .. } => false,
            },
        },
{
    let chars = to_chars(source);
    let line_ranges = split_lines(&chars);
    let ghost all_lines = lines_of(chars@);
    let mut defs: Vec<(Vec<u8>, String)> = Vec::new();
    let mut max_len: usize = 0;
    let mut li: usize = 0;
    proof {
        assert(all_lines.take(0) =~= Seq::<Seq<char>>::empty());
        assert(defs_view(defs@) =~~= Seq::<(Seq<u8>, Seq<char>)>::empty());
    }
    while li < line_ranges.len()
        invariant
            chars@ == source@,
            line_ranges@.map_values(|p: (usize, usize)| chars@.subrange(p.0 as int, p.1 as int))
                == all_lines,
            all_lines == lines_of(chars@),
            forall|k: int|
                0 <= k < line_ranges@.len() ==> (#[trigger] line_ranges@[k]).0
                    <= line_ranges@[k].1 <= chars@.len(),
            li <= line_ranges@.len(),
            parse_defs_spec(all_lines.take(li as int)) == Ok::<
                Seq<(Seq<u8>, Seq<char>)>,
                SigParseError,
            >(defs_view(defs@)),
            max_len as nat == max_pattern_len_of(defs_view(defs@)),
        decreases line_ranges@.len() - li,
    {
        let (llo, lhi) = line_ranges[li];
        proof {
            assert(all_lines[li as int] == chars@.subrange(llo as int, lhi as int));
        }
        let ghost line = all_lines[li as int];
        let ghost prefix = all_lines.take(li as int);
        let ghost prefix1 = all_lines.take(li as int + 1);
        proof {
            assert(prefix1.drop_last() =~= prefix);
            assert(prefix1.last() == line);
        }
        let (tlo, thi) = trim_range(&chars, llo, lhi);
        let ghost t = trim_spec(line);
        proof {
            assert(chars@.subrange(tlo as int, thi as int) == t);
        }
        if tlo == thi || chars[tlo] == '#' {
            proof {
                if tlo != thi {
                    assert(t[0] == chars@[tlo as int]);
                }
                assert(parse_line_spec(line) == LineParse::Skip);
            }
        } else {
            proof {
                assert(t[0] == chars@[tlo as int]);
                assert(t.len() > 0 && t[0] != '#');
            }
            let (semis, semi_pos) = scan_char(&chars, tlo, thi, ';');
            if semis != 1 {
                let bad = substring_to_string(source, tlo, thi);
                proof {
                    assert(parse_line_spec(line) == LineParse::BadFormat);
                    assert(parse_defs_spec(prefix1) == Err::<
                        Seq<(Seq<u8>, Seq<char>)>,
                        SigParseError,
                    >(SigParseError::Format { line: t }));
                    lemma_error_persists(all_lines, li as int + 1, SigParseError::Format { line: t });
                }
                return Err(FormatError::BadLine { line: bad });
            }
            let ghost p = first_index_of(t, ';');
            proof {
                assert(p == semi_pos - tlo);
                assert(t.subrange(0, p) =~= chars@.subrange(tlo as int, semi_pos as int));
                assert(t.subrange(p + 1, t.len() as int) =~= chars@.subrange(
                    semi_pos as int + 1,
                    thi as int,
                ));
            }
            let (hlo, hhi) = trim_range(&chars, tlo, semi_pos);
            let (dlo, dhi) = trim_range(&chars, semi_pos + 1, thi);
            let ghost hex_part = trim_spec(t.subrange(0, p));
            let ghost label = trim_spec(t.subrange(p + 1, t.len() as int));
            let ghost toks = tokens_of(hex_part);
            let tok_ranges = split_tokens(&chars, hlo, hhi);
            proof {
                assert(chars@.subrange(hlo as int, hhi as int) == hex_part);
                assert(chars@.subrange(dlo as int, dhi as int) == label);
                assert(tok_ranges@.map_values(
                    |q: (usize, usize)| chars@.subrange(q.0 as int, q.1 as int),
                ) == toks);
            }
            if tok_ranges.len() == 0 {
                let bad = substring_to_string(source, tlo, thi);
                proof {
                    assert(toks.len() == 0);
                    assert(parse_line_spec(line) == LineParse::BadFormat);
                    lemma_error_persists(all_lines, li as int + 1, SigParseError::Format { line: t });
                }
                return Err(FormatError::BadLine { line: bad });
            }
            let mut pattern: Vec<u8> = Vec::new();
            let mut ti: usize = 0;
            proof {
                assert(toks.take(0) =~= Seq::<Seq<char>>::empty());
                assert(hex_bytes_of_toks(toks.take(0)) == Some(pattern@));
            }
            while ti < tok_ranges.len()
                invariant
                    ti <= tok_ranges@.len(),
                    tok_ranges@.map_values(
                        |q: (usize, usize)| chars@.subrange(q.0 as int, q.1 as int),
                    ) == toks,
                    forall|k: int|
                        0 <= k < tok_ranges@.len() ==> (#[trigger] tok_ranges@[k]).0
                            < tok_ranges@[k].1 <= chars@.len(),
                    hex_bytes_of_toks(toks.take(ti as int)) == Some(pattern@),
                decreases tok_ranges@.len() - ti,
            {
                let (a, b) = tok_ranges[ti];
                proof {
                    assert(toks[ti as int] == chars@.subrange(a as int, b as int));
                    assert(toks.take(ti as int + 1).drop_last() =~= toks.take(ti as int));
                    assert(toks.take(ti as int + 1).last() == toks[ti as int]);
                }
                match parse_hex_byte(&chars, a, b) {
                    Some(bb) => {
                        pattern.push(bb);
                        proof {
                            assert(hex_bytes_of_toks(toks.take(ti as int + 1)) == Some(pattern@));
                        }
                    },
                    None => {
                        let bad = substring_to_string(source, tlo, thi);
                        proof {
                            if hex_bytes_of_toks(toks) is Some {
                                lemma_hex_bytes_some_all(toks);
                            }
                            assert(hex_bytes_of_toks(toks) is None);
                            assert(parse_line_spec(line) == LineParse::BadHex);
                            lemma_error_persists(
                                all_lines,
                                li as int + 1,
                                SigParseError::Hex { line: t },
                            );
                        }
                        return Err(FormatError::BadHexToken { line: bad });
                    },
                }
                ti = ti + 1;
            }
            proof {
                assert(toks.take(tok_ranges@.len() as int) =~= toks);
                assert(hex_bytes_of_toks(toks) == Some(pattern@));
                assert(parse_line_spec(line) == LineParse::Entry { pattern: pattern@, label });
            }
            let label_str = substring_to_string(source, dlo, dhi);
            let ghost old_defs = defs@;
            let ghost pat = pattern@;
            let plen = pattern.len();
            if plen > max_len {
                max_len = plen;
            }
            defs.push((pattern, label_str));
            proof {
                assert(defs_view(defs@) =~~= defs_view(old_defs).push((pat, label)));
                assert(defs_view(defs@).drop_last() =~~= defs_view(old_defs));
                assert(defs_view(defs@).last() == (pat, label));
                assert(parse_defs_spec(prefix1) == Ok::<
                    Seq<(Seq<u8>, Seq<char>)>,
                    SigParseError,
                >(defs_view(defs@)));
                assert(max_len as nat == max_pattern_len_of(defs_view(defs@)));
            }
        }
        li = li + 1;
    }
    proof {
        assert(all_lines.take(line_ranges@.len() as int) =~= all_lines);
        lemma_parsed_patterns_nonempty(all_lines);
        assert forall|k: int| 0 <= k < defs@.len() implies (#[trigger] defs@[k]).0@.len() > 0 by {
            assert(defs_view(defs@) == parse_defs_spec(all_lines)->Ok_0);
            assert(parse_defs_spec(all_lines)->Ok_0[k].0.len() > 0);
            assert(defs_view(defs@)[k] == (defs@[k].0@, defs@[k].1@));
        }
    }
    Ok((defs, max_len))
}

/// Whether `pattern` is a byte-for-byte prefix of `buffer`.
pub open spec fn pattern_matches(pattern: Seq<u8>, buffer: Seq<u8>) -> bool {
    pattern.len() <= buffer.len() && buffer.subrange(0, pattern.len() as int) == pattern
}

/// The label of the first entry, in table order, whose pattern is a prefix of
/// `buffer`; the tie-break is first occurrence, never pattern length.
pub open spec fn file_type_spec(defs: Seq<(Vec<u8>, String)>, buffer: Seq<u8>) -> Option<Seq<char>>
    decreases defs.len(),
{
    if defs.len() == 0 {
        None
    } else if pattern_matches(defs.first().0@, buffer) {
        Some(defs.first().1@)
    } else {
        file_type_spec(defs.drop_first(), buffer)
    }
}

pub fn starts_with_bytes(buffer: &Vec<u8>, pattern: &Vec<u8>) -> (r: bool)
    ensures
        r == pattern_matches(pattern@, buffer@),
{
    if pattern.len() > buffer.len() {
        proof {
            assert(!pattern_matches(pattern@, buffer@));
        }
        return false;
    }
    let mut i: usize = 0;
    while i < pattern.len()
        invariant
            i <= pattern@.len() <= buffer@.len(),
            forall|k: int| 0 <= k < i ==> buffer@[k] == pattern@[k],
        decreases pattern@.len() - i,
    {
        if buffer[i] != pattern[i] {
            proof {
                assert(buffer@.subrange(0, pattern@.len() as int)[i as int] != pattern@[i as int]);
            }
            return false;
        }
        i = i + 1;
    }
    proof {
        assert(buffer@.subrange(0, pattern@.len() as int) =~= pattern@);
    }
    true
}

/// Resolves the file-type label for a file whose leading bytes are `buffer`:
/// the first entry in table order whose pattern is a prefix wins.
pub fn find_file_type(definitions: &Vec<(Vec<u8>, String)>, buffer: &Vec<u8>) -> (r: Option<
    String,
>)
    ensures
        match r {
            Some(l) => file_type_spec(definitions@, buffer@) == Some(l@),
            None => file_type_spec(definitions@, buffer@) is None,
        },
{
    let mut i: usize = 0;
    proof {
        assert(definitions@.skip(0) =~= definitions@);
    }
    while i < definitions.len()
        invariant
            i <= definitions@.len(),
            file_type_spec(definitions@.skip(i as int), buffer@) == file_type_spec(
                definitions@,
                buffer@,
            ),
        decreases definitions@.len() - i,
    {
        proof {
            assert(definitions@.skip(i as int).first() == definitions@[i as int]);
        }
        if starts_with_bytes(buffer, &definitions[i].0) {
            return Some(definitions[i].1.clone());
        }
        proof {
            assert(definitions@.skip(i as int).drop_first() =~= definitions@.skip(i as int + 1));
        }
        i = i + 1;
    }
    proof {
        assert(definitions@.skip(definitions@.len() as int) =~= Seq::<(Vec<u8>, String)>::empty());
    }
    None
}

} // verus!

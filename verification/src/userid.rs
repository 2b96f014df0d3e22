//! The ownership table: colon-delimited records mapping a numeric owner id
//! to an owner name, with best-effort tolerance for short records.

use vstd::prelude::*;
use crate::errors::FormatError;
use crate::text::{
    chomp_cr, lines_of, split_at_char, split_char_ranges, split_lines, substring_to_string,
    to_chars, u32_of_dec, parse_u32,
};

verus! {

/// The table as a mapping: later records override earlier ones with the same
/// id.
pub open spec fn map_of_entries(es: Seq<(u32, String)>) -> Map<u32, Seq<char>>
    decreases es.len(),
{
    if es.len() == 0 {
        Map::empty()
    } else {
        map_of_entries(es.drop_last()).insert(es.last().0, es.last().1@)
    }
}

/// Owner names keyed by numeric owner id.
pub struct OwnershipTable {
    entries: Vec<(u32, String)>,
}

impl View for OwnershipTable {
    type V = Map<u32, Seq<char>>;

    closed spec fn view(&self) -> Map<u32, Seq<char>> {
        map_of_entries(self.entries@)
    }
}

impl OwnershipTable {
    /// An empty table: every lookup misses, so enrichment is simply omitted.
    pub fn new() -> (r: Self)
        ensures
            r@ == Map::<u32, Seq<char>>::empty(),
    {
        let r = OwnershipTable { entries: Vec::new() };
        proof {
            assert(r@ =~= Map::<u32, Seq<char>>::empty());
        }
        r
    }

    /// Records `name` for `uid`, overriding an earlier record.
    pub fn insert(&mut self, uid: u32, name: String)
        ensures
            final(self)@ == old(self)@.insert(uid, name@),
    {
        self.entries.push((uid, name));
        proof {
            assert(self.entries@.drop_last() =~= old(self).entries@);
        }
    }

    /// Whether the table holds no record at all.
    pub fn is_empty(&self) -> (r: bool)
        ensures
            r == (self@ == Map::<u32, Seq<char>>::empty()),
    {
        let r = self.entries.len() == 0;
        proof {
            if self.entries@.len() == 0 {
                assert(self@ =~= Map::<u32, Seq<char>>::empty());
            } else {
                assert(self@.contains_key(self.entries@.last().0));
            }
        }
        r
    }

    /// The owner name recorded for `uid`, if any.
    #[verifier::loop_isolation(false)]
    pub fn lookup(&self, uid: u32) -> (r: Option<&String>)
        ensures
            match r {
                Some(n) => self@.contains_key(uid) && n@ == self@[uid],
                None => !self@.contains_key(uid),
            },
    {
        let mut j: usize = self.entries.len();
        proof {
            assert(self.entries@.take(j as int) =~= self.entries@);
        }
        while j > 0
            invariant
                j <= self.entries@.len(),
                self@.contains_key(uid) == map_of_entries(
                    self.entries@.take(j as int),
                ).contains_key(uid),
                self@.contains_key(uid) ==> self@[uid] == map_of_entries(
                    self.entries@.take(j as int),
                )[uid],
            decreases j,
        {
            proof {
                assert(self.entries@.take(j as int).drop_last() =~= self.entries@.take(
                    j as int - 1,
                ));
                assert(self.entries@.take(j as int).last() == self.entries@[j as int - 1]);
            }
            let e = &self.entries[j - 1];
            if e.0 == uid {
                return Some(&e.1);
            }
            j = j - 1;
        }
        proof {
            assert(self.entries@.take(0) =~= Seq::<(u32, String)>::empty());
        }
        None
    }
}

/// The lines of a record source as a line reader hands them over: split on
/// newlines, each with one trailing carriage return removed.
pub open spec fn record_lines(s: Seq<char>) -> Seq<Seq<char>> {
    lines_of(s).map_values(|l: Seq<char>| chomp_cr(l))
}

/// The reading of the record lines in order: for every line with at least
/// three colon-separated fields, the third field as an unsigned id keyed to
/// the first field; shorter lines are skipped; a line whose id field does
/// not parse fails the whole load, first such line wins.
pub open spec fn passwd_spec(lines: Seq<Seq<char>>) -> Result<Map<u32, Seq<char>>, Seq<char>>
    decreases lines.len(),
{
    if lines.len() == 0 {
        Ok(Map::empty())
    } else {
        match passwd_spec(lines.drop_last()) {
            Err(e) => Err(e),
            Ok(m) => {
                let parts = split_at_char(lines.last(), ':');
                if parts.len() >= 3 {
                    match u32_of_dec(parts[2]) {
                        Some(uid) => Ok(m.insert(uid, parts[0])),
                        None => Err(lines.last()),
                    }
                } else {
                    Ok(m)
                }
            },
        }
    }
}

/// An error on an earlier record is kept whatever the later records hold.
pub proof fn lemma_passwd_error_persists(lines: Seq<Seq<char>>, i: int, e: Seq<char>)
    requires
        0 <= i <= lines.len(),
        passwd_spec(lines.take(i)) == Err::<Map<u32, Seq<char>>, Seq<char>>(e),
    ensures
        passwd_spec(lines) == Err::<Map<u32, Seq<char>>, Seq<char>>(e),
    decreases lines.len() - i,
{
    if i == lines.len() {
        assert(lines.take(i) =~= lines);
    } else {
        assert(lines.take(i + 1).drop_last() =~= lines.take(i));
        assert(lines.take(i + 1).last() == lines[i]);
        lemma_passwd_error_persists(lines, i + 1, e);
    }
}

/// Parses a colon-delimited ownership record source into an `OwnershipTable`.
/// A line whose id field is not an unsigned decimal number fails the load
/// with a `FormatError` naming that line; lines with fewer than three fields
/// are tolerated and skipped.
#[verifier::loop_isolation(false)]
pub fn get_usernames_from_passwd(source: &str) -> (r: Result<OwnershipTable, FormatError>)
    ensures
        match r {
            Ok(t) => passwd_spec(record_lines(source@)) == Ok::<Map<u32, Seq<char>>, Seq<char>>(
                t@,
            ),
            Err(e) => match e {
                FormatError::BadOwnerId { line } => passwd_spec(record_lines(source@)) == Err::<
                    Map<u32, Seq<char>>,
                    Seq<char>,
                >(line@),
                _ => false,
            },
        },
{
    let chars = to_chars(source);
    let line_ranges = split_lines(&chars);
    let ghost plines = record_lines(chars@);
    let mut table = OwnershipTable::new();
    let mut li: usize = 0;
    proof {
        assert(plines.take(0) =~= Seq::<Seq<char>>::empty());
    }
    while li < line_ranges.len()
        invariant
            li <= line_ranges@.len(),
            table@ == match passwd_spec(plines.take(li as int)) {
                Ok(m) => m,
                Err(_) => Map::empty(),
            },
            passwd_spec(plines.take(li as int)) is Ok,
        decreases line_ranges@.len() - li,
    {
        let (llo, mut lhi) = line_ranges[li];
        proof {
            assert(lines_of(chars@)[li as int] == chars@.subrange(llo as int, lhi as int));
            assert(plines[li as int] == chomp_cr(lines_of(chars@)[li as int]));
        }
        if lhi > llo && chars[lhi - 1] == '\r' {
            proof {
                assert(chars@.subrange(llo as int, lhi as int).last() == chars@[lhi as int - 1]);
                assert(chars@.subrange(llo as int, lhi as int).drop_last() =~= chars@.subrange(
                    llo as int,
                    lhi as int - 1,
                ));
            }
            lhi = lhi - 1;
        } else {
            proof {
                let raw = chars@.subrange(llo as int, lhi as int);
                if raw.len() > 0 {
                    assert(raw.last() == chars@[lhi as int - 1]);
                }
                assert(chomp_cr(raw) == raw);
            }
        }
        let ghost line = plines[li as int];
        proof {
            assert(line == chars@.subrange(llo as int, lhi as int));
            assert(plines.take(li as int + 1).drop_last() =~= plines.take(li as int));
            assert(plines.take(li as int + 1).last() == line);
        }
        let parts = split_char_ranges(&chars, llo, lhi, ':');
        proof {
            assert(parts@.map_values(|p: (usize, usize)| chars@.subrange(p.0 as int, p.1 as int))
                == split_at_char(line, ':'));
        }
        if parts.len() >= 3 {
            let (a2, b2) = parts[2];
            proof {
                assert(split_at_char(line, ':')[2] == chars@.subrange(a2 as int, b2 as int));
            }
            match parse_u32(&chars, a2, b2) {
                Some(uid) => {
                    let (a0, b0) = parts[0];
                    proof {
                        assert(split_at_char(line, ':')[0] == chars@.subrange(
                            a0 as int,
                            b0 as int,
                        ));
                    }
                    let name = substring_to_string(source, a0, b0);
                    table.insert(uid, name);
                },
                None => {
                    let bad = substring_to_string(source, llo, lhi);
                    proof {
                        lemma_passwd_error_persists(plines, li as int + 1, line);
                    }
                    return Err(FormatError::BadOwnerId { line: bad });
                },
            }
        }
        li = li + 1;
    }
    proof {
        assert(plines.take(line_ranges@.len() as int) =~= plines);
    }
    Ok(table)
}

} // verus!

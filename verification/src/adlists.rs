//! The remote catalog: one `AdList` per row of the fetched CSV text, and the
//! parser that turns the text into entries.
use vstd::prelude::*;
use vstd::string::*;
use crate::SyncError;

verus! {

/// One entry of the remote catalog. All five fields are always present
/// (possibly empty). `source_url` identifies the block list.
#[derive(Debug)]
pub struct AdList {
    pub category: String,
    pub tick_type: String,
    pub source_repo: String,
    pub description: String,
    pub source_url: String,
}

/// The comment string derived from an entry: `[<tick_type>][<category>] <description>`.
/// This string tags a persisted row's provenance and doubles as the natural
/// key of the reconciliation logic.
pub open spec fn comment_of(a: AdList) -> Seq<char> {
    seq!['['] + a.tick_type@ + seq![']', '['] + a.category@ + seq![']', ' '] + a.description@
}

impl AdList {
    /// Builds the derived comment string for this entry.
    pub fn get_comment(&self) -> (r: String)
        ensures
            r@ == comment_of(*self),
    {
        let mut r = String::from_str("[");
        r.append(self.tick_type.as_str());
        r.append("][");
        r.append(self.category.as_str());
        r.append("] ");
        r.append(self.description.as_str());
        proof {
            reveal_strlit("[");
            reveal_strlit("][");
            reveal_strlit("] ");
            assert(r@ =~= comment_of(*self));
        }
        r
    }
}

// ---------------------------------------------------------------------------
// The catalog text format
// ---------------------------------------------------------------------------
//
// The remote catalog is headerless tabular text: records separated by line
// breaks, fields separated by commas, fields optionally enclosed in double
// quotes. Inside a quoted field every character is literal except the double
// quote, which is written twice to stand for itself. Parsing is strict: one
// malformed record aborts the whole parse, and every record must carry
// exactly the five fields of an entry.

/// The scanner position within the text.
#[derive(Clone, Copy, Debug, PartialEq, Eq, Structural)]
pub enum CsvState {
    /// At the beginning of a record; blank lines are skipped here.
    RecordStart,
    /// Right after a field separator.
    FieldStart,
    /// Inside an unquoted field.
    Unquoted,
    /// Inside a quoted field.
    Quoted,
    /// Inside a quoted field, right after a double quote that either closes
    /// the field or begins an escaped double quote.
    QuoteSeen,
    /// After malformed text; absorbing.
    Failed,
}

/// The scanner's accumulated state: finished records, finished fields of the
/// current record, characters of the current field, and the position.
#[verifier::ext_equal]
pub struct CsvAcc {
    pub rows: Seq<Seq<Seq<char>>>,
    pub fields: Seq<Seq<char>>,
    pub cur: Seq<char>,
    pub st: CsvState,
}

/// The scanner's concrete state; its view is a `CsvAcc`.
pub struct CsvAccE {
    pub rows: Vec<Vec<Vec<char>>>,
    pub fields: Vec<Vec<char>>,
    pub cur: Vec<char>,
    pub st: CsvState,
}

pub open spec fn fields_view(fs: Seq<Vec<char>>) -> Seq<Seq<char>> {
    fs.map_values(|v: Vec<char>| v@)
}

pub open spec fn rows_view(rs: Seq<Vec<Vec<char>>>) -> Seq<Seq<Seq<char>>> {
    rs.map_values(|v: Vec<Vec<char>>| fields_view(v@))
}

impl View for CsvAccE {
    type V = CsvAcc;

    open spec fn view(&self) -> CsvAcc {
        CsvAcc {
            rows: rows_view(self.rows@),
            fields: fields_view(self.fields@),
            cur: self.cur@,
            st: self.st,
        }
    }
}

pub open spec fn csv_init() -> CsvAcc {
    CsvAcc {
        rows: Seq::empty(),
        fields: Seq::empty(),
        cur: Seq::empty(),
        st: CsvState::RecordStart,
    }
}

/// The current field is finished by a separator.
pub open spec fn s_end_field(a: CsvAcc) -> CsvAcc {
    CsvAcc {
        rows: a.rows,
        fields: a.fields.push(a.cur),
        cur: Seq::empty(),
        st: CsvState::FieldStart,
    }
}

/// The current field and record are finished by a line break.
pub open spec fn s_end_record(a: CsvAcc) -> CsvAcc {
    CsvAcc {
        rows: a.rows.push(a.fields.push(a.cur)),
        fields: Seq::empty(),
        cur: Seq::empty(),
        st: CsvState::RecordStart,
    }
}

/// A literal character joins the current field.
pub open spec fn s_push_char(a: CsvAcc, c: char, st: CsvState) -> CsvAcc {
    CsvAcc { rows: a.rows, fields: a.fields, cur: a.cur.push(c), st: st }
}

/// Only the position changes.
pub open spec fn s_to_state(a: CsvAcc, st: CsvState) -> CsvAcc {
    CsvAcc { rows: a.rows, fields: a.fields, cur: a.cur, st: st }
}

/// One character of catalog text, applied to the scanner state.
pub open spec fn csv_step(a: CsvAcc, c: char) -> CsvAcc {
    match a.st {
        CsvState::Failed => a,
        CsvState::RecordStart => if c == '\n' || c == '\r' {
            a
        } else if c == ',' {
            s_end_field(a)
        } else if c == '"' {
            s_to_state(a, CsvState::Quoted)
        } else {
            s_push_char(a, c, CsvState::Unquoted)
        },
        CsvState::FieldStart => if c == '\n' || c == '\r' {
            s_end_record(a)
        } else if c == ',' {
            s_end_field(a)
        } else if c == '"' {
            s_to_state(a, CsvState::Quoted)
        } else {
            s_push_char(a, c, CsvState::Unquoted)
        },
        CsvState::Unquoted => if c == '\n' || c == '\r' {
            s_end_record(a)
        } else if c == ',' {
            s_end_field(a)
        } else {
            s_push_char(a, c, CsvState::Unquoted)
        },
        CsvState::Quoted => if c == '"' {
            s_to_state(a, CsvState::QuoteSeen)
        } else {
            s_push_char(a, c, CsvState::Quoted)
        },
        CsvState::QuoteSeen => if c == '"' {
            s_push_char(a, c, CsvState::Quoted)
        } else if c == ',' {
            s_end_field(a)
        } else if c == '\n' || c == '\r' {
            s_end_record(a)
        } else {
            s_to_state(a, CsvState::Failed)
        },
    }
}

/// The scanner state after the first `n` characters of `s`.
pub open spec fn csv_scan(s: Seq<char>, n: int) -> CsvAcc
    decreases n,
{
    if n <= 0 {
        csv_init()
    } else {
        csv_step(csv_scan(s, n - 1), s[n - 1])
    }
}

/// The records of the whole text, if it is well formed: text ending inside a
/// quoted field (or after malformed text) has none; text ending mid-record
/// finishes that record without a trailing line break.
pub open spec fn csv_finish(a: CsvAcc) -> Option<Seq<Seq<Seq<char>>>> {
    match a.st {
        CsvState::Failed => None,
        CsvState::Quoted => None,
        CsvState::RecordStart => Some(a.rows),
        _ => Some(a.rows.push(a.fields.push(a.cur))),
    }
}

/// The records of the catalog text `s`, if it is well formed.
pub open spec fn parse_csv_spec(s: Seq<char>) -> Option<Seq<Seq<Seq<char>>>> {
    csv_finish(csv_scan(s, s.len() as int))
}

fn e_end_field(a: &mut CsvAccE)
    ensures
        final(a)@ == s_end_field(old(a)@),
{
    let mut c: Vec<char> = Vec::new();
    core::mem::swap(&mut a.cur, &mut c);
    a.fields.push(c);
    a.st = CsvState::FieldStart;
    proof {
        assert(a@ =~~= s_end_field(old(a)@));
    }
}

fn e_end_record(a: &mut CsvAccE)
    ensures
        final(a)@ == s_end_record(old(a)@),
{
    let mut c: Vec<char> = Vec::new();
    core::mem::swap(&mut a.cur, &mut c);
    a.fields.push(c);
    let mut f: Vec<Vec<char>> = Vec::new();
    core::mem::swap(&mut a.fields, &mut f);
    a.rows.push(f);
    a.st = CsvState::RecordStart;
    proof {
        assert(fields_view(a.rows@.last()@) =~~= old(a)@.fields.push(old(a)@.cur));
        assert(a@ =~~= s_end_record(old(a)@));
    }
}

fn csv_step_e(a: &mut CsvAccE, c: char)
    ensures
        final(a)@ == csv_step(old(a)@, c),
{
    match a.st {
        CsvState::Failed => {},
        CsvState::RecordStart => {
            if c == '\n' || c == '\r' {
            } else if c == ',' {
                e_end_field(a);
            } else if c == '"' {
                a.st = CsvState::Quoted;
            } else {
                a.cur.push(c);
                a.st = CsvState::Unquoted;
                proof {
                    assert(a@ =~~= s_push_char(old(a)@, c, CsvState::Unquoted));
                }
            }
        },
        CsvState::FieldStart => {
            if c == '\n' || c == '\r' {
                e_end_record(a);
            } else if c == ',' {
                e_end_field(a);
            } else if c == '"' {
                a.st = CsvState::Quoted;
            } else {
                a.cur.push(c);
                a.st = CsvState::Unquoted;
                proof {
                    assert(a@ =~~= s_push_char(old(a)@, c, CsvState::Unquoted));
                }
            }
        },
        CsvState::Unquoted => {
            if c == '\n' || c == '\r' {
                e_end_record(a);
            } else if c == ',' {
                e_end_field(a);
            } else {
                a.cur.push(c);
                proof {
                    assert(a@ =~~= s_push_char(old(a)@, c, CsvState::Unquoted));
                }
            }
        },
        CsvState::Quoted => {
            if c == '"' {
                a.st = CsvState::QuoteSeen;
            } else {
                a.cur.push(c);
                proof {
                    assert(a@ =~~= s_push_char(old(a)@, c, CsvState::Quoted));
                }
            }
        },
        CsvState::QuoteSeen => {
            if c == '"' {
                a.cur.push(c);
                a.st = CsvState::Quoted;
                proof {
                    assert(a@ =~~= s_push_char(old(a)@, c, CsvState::Quoted));
                }
            } else if c == ',' {
                e_end_field(a);
            } else if c == '\n' || c == '\r' {
                e_end_record(a);
            } else {
                a.st = CsvState::Failed;
            }
        },
    }
}

fn parse_csv(s: &str) -> (r: Option<Vec<Vec<Vec<char>>>>)
    ensures
        match r {
            Some(v) => parse_csv_spec(s@) == Some(rows_view(v@)),
            None => parse_csv_spec(s@) is None,
        },
{
    let n = s.unicode_len();
    let mut acc = CsvAccE {
        rows: Vec::new(),
        fields: Vec::new(),
        cur: Vec::new(),
        st: CsvState::RecordStart,
    };
    proof {
        assert(acc@ =~~= csv_init());
    }
    for i in 0..n
        invariant
            n == s@.len(),
            acc@ == csv_scan(s@, i as int),
    {
        let c = s.get_char(i);
        csv_step_e(&mut acc, c);
    }
    match acc.st {
        CsvState::Failed => None,
        CsvState::Quoted => None,
        CsvState::RecordStart => Some(acc.rows),
        _ => {
            let mut a = acc;
            let ghost pre = a@;
            let mut c: Vec<char> = Vec::new();
            core::mem::swap(&mut a.cur, &mut c);
            a.fields.push(c);
            let mut f: Vec<Vec<char>> = Vec::new();
            core::mem::swap(&mut a.fields, &mut f);
            a.rows.push(f);
            proof {
                assert(fields_view(a.rows@.last()@) =~~= pre.fields.push(pre.cur));
                assert(rows_view(a.rows@) =~~= pre.rows.push(pre.fields.push(pre.cur)));
            }
            Some(a.rows)
        },
    }
}

/// Relies on String's FromIterator over characters: collecting an iterator
/// of characters yields the string of exactly those characters, in order.
#[verifier::external_body]
fn chars_to_string(v: &Vec<char>) -> (r: String)
    ensures
        r@ == v@,
{
    v.iter().collect()
}

/// Whether the entry `a` carries exactly the five fields of the record `row`,
/// in their fixed positional order.
pub open spec fn row_entry_ok(row: Seq<Seq<char>>, a: AdList) -> bool {
    &&& a.category@ == row[0]
    &&& a.tick_type@ == row[1]
    &&& a.source_repo@ == row[2]
    &&& a.description@ == row[3]
    &&& a.source_url@ == row[4]
}

/// Parses the fetched catalog text into entries: the text must be well
/// formed and every record must carry exactly five fields, which map
/// positionally to {category, tick_type, source_repo, description,
/// source_url}. Source order is preserved. Anything else is a parse
/// failure, and the whole parse is rejected — no partial results.
pub fn parse_catalog(s: &str) -> (r: Result<Vec<AdList>, SyncError>)
    ensures
        ({
            let p = parse_csv_spec(s@);
            match r {
                Ok(v) => {
                    &&& p is Some
                    &&& v@.len() == p.unwrap().len()
                    &&& forall|i: int|
                        0 <= i < v@.len() ==> (#[trigger] p.unwrap()[i]).len() == 5
                            && row_entry_ok(p.unwrap()[i], v@[i])
                },
                Err(e) => {
                    &&& e == SyncError::ParseError
                    &&& (p is None || exists|i: int|
                        0 <= i < p.unwrap().len() && (#[trigger] p.unwrap()[i]).len() != 5)
                },
            }
        }),
{
    let rows = match parse_csv(s) {
        None => {
            return Err(SyncError::ParseError);
        },
        Some(rows) => rows,
    };
    let ghost p = parse_csv_spec(s@);
    let mut out: Vec<AdList> = Vec::new();
    let n = rows.len();
    for i in 0..n
        invariant
            n == rows@.len(),
            p == parse_csv_spec(s@),
            p == Some(rows_view(rows@)),
            out@.len() == i,
            forall|j: int|
                0 <= j < i ==> (#[trigger] p.unwrap()[j]).len() == 5 && row_entry_ok(
                    p.unwrap()[j],
                    out@[j],
                ),
    {
        let row = &rows[i];
        if row.len() != 5 {
            proof {
                assert(p.unwrap()[i as int].len() != 5);
            }
            return Err(SyncError::ParseError);
        }
        out.push(
            AdList {
                category: chars_to_string(&row[0]),
                tick_type: chars_to_string(&row[1]),
                source_repo: chars_to_string(&row[2]),
                description: chars_to_string(&row[3]),
                source_url: chars_to_string(&row[4]),
            },
        );
        proof {
            assert(p.unwrap()[i as int].len() == 5);
            assert(row_entry_ok(p.unwrap()[i as int], out@[i as int]));
        }
    }
    Ok(out)
}

} // verus!

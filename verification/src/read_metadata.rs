//! The exposure table reader: parses delimited rows with a header into
//! validated exposure records, preserving row order exactly.
//!
//! Reading is strict: a row that fails to parse or whose shutter speed does
//! not match the required pattern fails the whole read, since silently
//! dropping an exposure would desynchronize the later positional pairing.

use vstd::prelude::*;

verus! {

use crate::numbers::{check_number_text, int_text_ok, int_text_value, is_digit, is_number_text,
    parse_i32};

/// One raw table row, keyed off the header: every field still text.
pub struct BuildExposureInfo {
    pub lens_name: String,
    pub focal_length: String,
    pub date: String,
    pub iso: String,
    pub aperture: String,
    pub shutter_speed: String,
    pub exposure_compensation: Option<String>,
}

/// One validated exposure record.  Numeric text fields are validated
/// decimal text; the date passes through verbatim.
pub struct ExposureInfo {
    pub lens_name: String,
    pub focal_length: String,
    pub date: String,
    pub iso: i32,
    pub aperture: String,
    pub shutter_speed: String,
    pub exposure_compensation: Option<String>,
}

#[derive(Debug)]
pub enum Error {
    /// A row's shutter speed does not match the required pattern.
    InvalidShutterSpeed { text: String },
    /// The table source could not be opened or read.  Raised by whoever
    /// opens the source; the reader itself works on bytes already read.
    InvalidCSV { message: String },
    /// A row failed to parse: a malformed or uneven row, a missing
    /// required column, or a field that does not read as its type.
    FailedToParse { message: String },
}

/// A shutter speed as a fraction: the whole text is `1/` followed by one
/// or more digits.
pub open spec fn is_fraction_form(s: Seq<char>) -> bool {
    &&& s.len() >= 3
    &&& s[0] == '1'
    &&& s[1] == '/'
    &&& forall|k: int| 2 <= k < s.len() ==> is_digit(#[trigger] s[k])
}

/// A shutter speed in whole seconds: the whole text is one or more digits
/// followed by a double-quote character.
pub open spec fn is_seconds_form(s: Seq<char>) -> bool {
    &&& s.len() >= 2
    &&& s[s.len() - 1] == '"'
    &&& forall|k: int| 0 <= k < s.len() - 1 ==> is_digit(#[trigger] s[k])
}

/// A shutter speed must be, in its entirety, a fraction of the form
/// `1/<digits>` or a bare number followed by a double-quote character.
pub open spec fn is_valid_shutter_speed(s: Seq<char>) -> bool {
    is_fraction_form(s) || is_seconds_form(s)
}

/// The raw fields parse into their types: decimal text where numeric, an
/// `i32` for the ISO, and decimal text for the compensation when logged.
pub open spec fn args_fields_ok(a: BuildExposureInfo) -> bool {
    &&& is_number_text(a.focal_length@)
    &&& int_text_ok(a.iso@)
    &&& -2147483648 <= int_text_value(a.iso@) <= 2147483647
    &&& is_number_text(a.aperture@)
    &&& (a.exposure_compensation matches Some(c) ==> is_number_text(c@))
}

/// How a validated record reflects its raw row.
pub open spec fn record_of_args(a: BuildExposureInfo, e: ExposureInfo) -> bool {
    &&& e.lens_name@ == a.lens_name@
    &&& e.focal_length@ == a.focal_length@
    &&& e.date@ == a.date@
    &&& e.iso as int == int_text_value(a.iso@)
    &&& e.aperture@ == a.aperture@
    &&& e.shutter_speed@ == a.shutter_speed@
    &&& (match (e.exposure_compensation, a.exposure_compensation) {
        (Some(c), Some(f)) => c@ == f@,
        (None, None) => true,
        _ => false,
    })
}

impl ExposureInfo {
    /// A record fit for writing: its numeric text fields are decimal text.
    pub open spec fn wf(self) -> bool {
        &&& is_number_text(self.focal_length@)
        &&& is_number_text(self.aperture@)
        &&& (self.exposure_compensation matches Some(c) ==> is_number_text(c@))
    }

    /// Decides the shutter-speed pattern against the whole text.
    pub fn is_shutter_speed_valid(txt: &str) -> (r: bool)
        ensures
            r == is_valid_shutter_speed(txt@),
    {
        let len = txt.unicode_len();
        if len >= 3 && txt.get_char(0) == '1' && txt.get_char(1) == '/' && digits_in_range(
            txt,
            2,
            len,
        ) {
            return true;
        }
        if len >= 2 && txt.get_char(len - 1) == '"' && digits_in_range(txt, 0, len - 1) {
            return true;
        }
        false
    }

    /// Validates one raw row into a record: the typed fields first, then
    /// the shutter-speed pattern, failing fast with the offending text.
    pub fn build(args: BuildExposureInfo) -> (r: Result<ExposureInfo, Error>)
        ensures
            r is Ok <==> args_fields_ok(args) && is_valid_shutter_speed(args.shutter_speed@),
            r matches Ok(e) ==> record_of_args(args, e) && e.wf(),
            !args_fields_ok(args) ==> (r matches Err(err) && err is FailedToParse),
            args_fields_ok(args) && !is_valid_shutter_speed(args.shutter_speed@) ==> (
            r matches Err(err) && err matches Error::InvalidShutterSpeed { text } && text@
                == args.shutter_speed@),
    {
        if !check_number_text(args.focal_length.as_str()) {
            return Err(Error::FailedToParse { message: field_error_text("focal_length") });
        }
        let iso = match parse_i32(args.iso.as_str()) {
            Some(v) => v,
            None => {
                return Err(Error::FailedToParse { message: field_error_text("iso") });
            },
        };
        if !check_number_text(args.aperture.as_str()) {
            return Err(Error::FailedToParse { message: field_error_text("aperture") });
        }
        if let Some(c) = &args.exposure_compensation {
            if !check_number_text(c.as_str()) {
                return Err(Error::FailedToParse {
                    message: field_error_text("exposure_compensation"),
                });
            }
        }
        if !Self::is_shutter_speed_valid(args.shutter_speed.as_str()) {
            return Err(Error::InvalidShutterSpeed { text: args.shutter_speed });
        }
        Ok(ExposureInfo {
            lens_name: args.lens_name,
            focal_length: args.focal_length,
            date: args.date,
            iso,
            aperture: args.aperture,
            shutter_speed: args.shutter_speed,
            exposure_compensation: args.exposure_compensation,
        })
    }
}

/// Checks that every character of `s` in `[from, to)` is a digit.
#[verifier::loop_isolation(false)]
fn digits_in_range(s: &str, from: usize, to: usize) -> (r: bool)
    requires
        from <= to <= s@.len(),
    ensures
        r == (forall|k: int| from <= k < to ==> is_digit(#[trigger] s@[k])),
{
    let mut i: usize = from;
    while i < to
        invariant
            from <= i <= to,
            forall|k: int| from <= k < i ==> is_digit(#[trigger] s@[k]),
        decreases to - i,
    {
        let code: u32 = s.get_char(i) as u32;
        if code < 48 || code > 57 {
            assert(!is_digit(s@[i as int]));
            return false;
        }
        i = i + 1;
    }
    true
}

/// A diagnostic naming the field whose value did not parse.
fn field_error_text(field: &str) -> (r: String) {
    let mut m = String::new();
    m.append("value does not parse in column ");
    m.append(field);
    m
}

/// What the table parser yields on given bytes: the header fields and the
/// data rows, or the parse error's text.
pub uninterp spec fn csv_parse(data: Seq<u8>) -> Result<
    (Seq<Seq<char>>, Seq<Seq<Seq<char>>>),
    Seq<char>,
>;

/// Relies on csv::Reader: parses delimited bytes whose first record names
/// the columns; a data row with a field count unlike the header's is a
/// parse error, so every row that comes back matches the header's length.
#[verifier::external_body]
fn parse_csv_bytes(data: &Vec<u8>) -> (r: Result<(Vec<String>, Vec<Vec<String>>), String>)
    ensures
        r is Ok <==> csv_parse(data@) is Ok,
        r matches Ok(t) ==> (csv_parse(data@) matches Ok(s) && t.0.deep_view() == s.0
            && t.1.deep_view() == s.1),
        r matches Err(m) ==> (csv_parse(data@) matches Err(sm) && m@ == sm),
        r matches Ok(t) ==> forall|i: int|
            0 <= i < t.1@.len() ==> (#[trigger] t.1@[i])@.len() == t.0@.len(),
{
    let mut rdr = csv::Reader::from_reader(data.as_slice());
    let headers: Vec<String> = match rdr.headers() {
        Ok(h) => h.iter().map(|f| f.to_string()).collect(),
        Err(e) => return Err(format!("{}", e)),
    };
    let mut rows: Vec<Vec<String>> = Vec::new();
    for rec in rdr.records() {
        match rec {
            Ok(rw) => rows.push(rw.iter().map(|f| f.to_string()).collect()),
            Err(e) => return Err(format!("{}", e)),
        }
    }
    Ok((headers, rows))
}

/// The index of the first header equal to `name`, or the header count.
pub open spec fn header_index(hs: Seq<Seq<char>>, name: Seq<char>) -> int
    decreases hs.len(),
{
    if hs.len() == 0 {
        0
    } else if hs[0] == name {
        0
    } else {
        1 + header_index(hs.drop_first(), name)
    }
}

proof fn lemma_header_index_at(hs: Seq<Seq<char>>, name: Seq<char>, k: int)
    requires
        0 <= k <= hs.len(),
        forall|i: int| 0 <= i < k ==> hs[i] != name,
        k == hs.len() || hs[k] == name,
    ensures
        header_index(hs, name) == k,
    decreases hs.len(),
{
    if hs.len() > 0 && hs[0] != name {
        lemma_header_index_at(hs.drop_first(), name, k - 1);
    }
}

/// The table names every required column.
pub open spec fn headers_ok(hs: Seq<Seq<char>>) -> bool {
    &&& header_index(hs, "lens_name"@) < hs.len()
    &&& header_index(hs, "focal_length"@) < hs.len()
    &&& header_index(hs, "date"@) < hs.len()
    &&& header_index(hs, "iso"@) < hs.len()
    &&& header_index(hs, "aperture"@) < hs.len()
    &&& header_index(hs, "shutter_speed"@) < hs.len()
}

/// A named field of a row.
pub open spec fn field_of(hs: Seq<Seq<char>>, row: Seq<Seq<char>>, name: Seq<char>) -> Seq<char> {
    row[header_index(hs, name)]
}

/// The compensation field: absent when the column is missing or the field
/// empty, as an unlogged compensation is simply not written.
pub open spec fn comp_field(hs: Seq<Seq<char>>, row: Seq<Seq<char>>) -> Option<Seq<char>> {
    if header_index(hs, "exposure_compensation"@) < hs.len() && field_of(
        hs,
        row,
        "exposure_compensation"@,
    ).len() > 0 {
        Some(field_of(hs, row, "exposure_compensation"@))
    } else {
        None
    }
}

/// The typed fields of a row parse.
pub open spec fn row_fields_ok(hs: Seq<Seq<char>>, row: Seq<Seq<char>>) -> bool {
    &&& is_number_text(field_of(hs, row, "focal_length"@))
    &&& int_text_ok(field_of(hs, row, "iso"@))
    &&& -2147483648 <= int_text_value(field_of(hs, row, "iso"@)) <= 2147483647
    &&& is_number_text(field_of(hs, row, "aperture"@))
    &&& (comp_field(hs, row) matches Some(c) ==> is_number_text(c))
}

/// A row passes entirely: typed fields and the shutter-speed pattern.
pub open spec fn row_ok(hs: Seq<Seq<char>>, row: Seq<Seq<char>>) -> bool {
    row_fields_ok(hs, row) && is_valid_shutter_speed(field_of(hs, row, "shutter_speed"@))
}

/// How a record reflects its row.
pub open spec fn record_matches(hs: Seq<Seq<char>>, row: Seq<Seq<char>>, e: ExposureInfo) -> bool {
    &&& e.lens_name@ == field_of(hs, row, "lens_name"@)
    &&& e.focal_length@ == field_of(hs, row, "focal_length"@)
    &&& e.date@ == field_of(hs, row, "date"@)
    &&& e.iso as int == int_text_value(field_of(hs, row, "iso"@))
    &&& e.aperture@ == field_of(hs, row, "aperture"@)
    &&& e.shutter_speed@ == field_of(hs, row, "shutter_speed"@)
    &&& (match (e.exposure_compensation, comp_field(hs, row)) {
        (Some(c), Some(f)) => c@ == f,
        (None, None) => true,
        _ => false,
    })
}

/// The first row that fails validation, or the row count.
pub open spec fn first_bad(hs: Seq<Seq<char>>, rows: Seq<Seq<Seq<char>>>) -> int
    decreases rows.len(),
{
    if rows.len() == 0 {
        0
    } else if !row_ok(hs, rows[0]) {
        0
    } else {
        1 + first_bad(hs, rows.drop_first())
    }
}

proof fn lemma_first_bad_at(hs: Seq<Seq<char>>, rows: Seq<Seq<Seq<char>>>, k: int)
    requires
        0 <= k <= rows.len(),
        forall|i: int| 0 <= i < k ==> row_ok(hs, #[trigger] rows[i]),
        k == rows.len() || !row_ok(hs, rows[k]),
    ensures
        first_bad(hs, rows) == k,
    decreases rows.len(),
{
    if rows.len() > 0 && row_ok(hs, rows[0]) {
        assert forall|i: int| 0 <= i < k - 1 implies row_ok(hs, #[trigger] rows.drop_first()[i]) by {
            assert(rows.drop_first()[i] == rows[i + 1]);
        }
        lemma_first_bad_at(hs, rows.drop_first(), k - 1);
    }
}

/// Finds a header by name.
#[verifier::loop_isolation(false)]
fn find_header(headers: &Vec<String>, name: &String) -> (ix: usize)
    ensures
        ix as int == header_index(headers.deep_view(), name@),
        ix <= headers@.len(),
        ix < headers@.len() ==> headers@[ix as int]@ == name@,
{
    let mut i: usize = 0;
    while i < headers.len()
        invariant
            0 <= i <= headers@.len(),
            forall|k: int| 0 <= k < i ==> headers.deep_view()[k] != name@,
        decreases headers@.len() - i,
    {
        if headers[i].eq(name) {
            proof {
                assert(headers.deep_view()[i as int] == name@);
                lemma_header_index_at(headers.deep_view(), name@, i as int);
            }
            return i;
        }
        proof {
            assert(headers.deep_view()[i as int] == headers@[i as int]@);
        }
        i = i + 1;
    }
    proof {
        lemma_header_index_at(headers.deep_view(), name@, headers@.len() as int);
    }
    headers.len()
}

/// Reads the exposure table from raw bytes: parses the delimited rows,
/// requires the six named columns, and validates every row in order,
/// failing the whole read at the first bad row.
#[verifier::loop_isolation(false)]
#[verifier::rlimit(60)]
pub fn read_metadata(data: &Vec<u8>) -> (r: Result<Vec<ExposureInfo>, Error>)
    ensures
        csv_parse(data@) matches Err(m) ==> (r matches Err(err)
            && err matches Error::FailedToParse { message } && message@ == m),
        csv_parse(data@) matches Ok(t) && !headers_ok(t.0) ==> (r matches Err(err)
            && err is FailedToParse),
        csv_parse(data@) is Ok && headers_ok(csv_parse(data@)->Ok_0.0) ==> ({
            let hs = csv_parse(data@)->Ok_0.0;
            let rows = csv_parse(data@)->Ok_0.1;
            &&& (r is Ok <==> first_bad(hs, rows) == rows.len())
            &&& (r matches Ok(v) ==> v@.len() == rows.len() && forall|i: int|
                0 <= i < rows.len() ==> record_matches(hs, rows[i], #[trigger] v@[i]))
            &&& (r matches Ok(v) ==> forall|i: int| 0 <= i < v@.len() ==> (
            #[trigger] v@[i]).wf())
            &&& (first_bad(hs, rows) < rows.len() && !row_fields_ok(hs, rows[first_bad(hs, rows)])
                ==> (r matches Err(err) && err is FailedToParse))
            &&& (first_bad(hs, rows) < rows.len() && row_fields_ok(hs, rows[first_bad(hs, rows)])
                ==> (r matches Err(err) && err matches Error::InvalidShutterSpeed { text } && text@
                == field_of(hs, rows[first_bad(hs, rows)], "shutter_speed"@)))
        }),
{
    let table = match parse_csv_bytes(data) {
        Ok(t) => t,
        Err(m) => {
            return Err(Error::FailedToParse { message: m });
        },
    };
    let (headers, rows) = table;
    let ghost hs: Seq<Seq<char>> = headers.deep_view();
    let ghost rws: Seq<Seq<Seq<char>>> = rows.deep_view();
    let lens_ix = find_header(&headers, &String::from_str("lens_name"));
    let focal_ix = find_header(&headers, &String::from_str("focal_length"));
    let date_ix = find_header(&headers, &String::from_str("date"));
    let iso_ix = find_header(&headers, &String::from_str("iso"));
    let aperture_ix = find_header(&headers, &String::from_str("aperture"));
    let shutter_ix = find_header(&headers, &String::from_str("shutter_speed"));
    let comp_ix = find_header(&headers, &String::from_str("exposure_compensation"));
    let n = headers.len();
    if lens_ix >= n {
        return Err(Error::FailedToParse { message: missing_column_text("lens_name") });
    }
    if focal_ix >= n {
        return Err(Error::FailedToParse { message: missing_column_text("focal_length") });
    }
    if date_ix >= n {
        return Err(Error::FailedToParse { message: missing_column_text("date") });
    }
    if iso_ix >= n {
        return Err(Error::FailedToParse { message: missing_column_text("iso") });
    }
    if aperture_ix >= n {
        return Err(Error::FailedToParse { message: missing_column_text("aperture") });
    }
    if shutter_ix >= n {
        return Err(Error::FailedToParse { message: missing_column_text("shutter_speed") });
    }
    let mut out: Vec<ExposureInfo> = Vec::new();
    let mut i: usize = 0;
    while i < rows.len()
        invariant
            0 <= i <= rows@.len(),
            out@.len() == i,
            forall|k: int| 0 <= k < i ==> row_ok(hs, #[trigger] rws[k]),
            forall|k: int| 0 <= k < i ==> record_matches(hs, rws[k], #[trigger] out@[k]),
            forall|k: int| 0 <= k < i ==> (#[trigger] out@[k]).wf(),
        decreases rows@.len() - i,
    {
        let row = &rows[i];
        proof {
            assert(rws[i as int] == row.deep_view());
            assert(row@.len() == headers@.len());
        }
        let comp: Option<String> = if comp_ix < n {
            let f = &row[comp_ix];
            if f.as_str().unicode_len() == 0 {
                None
            } else {
                Some(f.clone())
            }
        } else {
            None
        };
        let args = BuildExposureInfo {
            lens_name: row[lens_ix].clone(),
            focal_length: row[focal_ix].clone(),
            date: row[date_ix].clone(),
            iso: row[iso_ix].clone(),
            aperture: row[aperture_ix].clone(),
            shutter_speed: row[shutter_ix].clone(),
            exposure_compensation: comp,
        };
        proof {
            assert(args.lens_name@ == field_of(hs, rws[i as int], "lens_name"@));
            assert(args.focal_length@ == field_of(hs, rws[i as int], "focal_length"@));
            assert(args.iso@ == field_of(hs, rws[i as int], "iso"@));
            assert(args.aperture@ == field_of(hs, rws[i as int], "aperture"@));
            assert(args.shutter_speed@ == field_of(hs, rws[i as int], "shutter_speed"@));
            assert(match (args.exposure_compensation, comp_field(hs, rws[i as int])) {
                (Some(c), Some(f)) => c@ == f,
                (None, None) => true,
                _ => false,
            });
        }
        match ExposureInfo::build(args) {
            Ok(e) => {
                out.push(e);
                proof {
                    assert(row_ok(hs, rws[i as int]));
                    assert(record_matches(hs, rws[i as int], out@[i as int]));
                }
            },
            Err(err) => {
                proof {
                    assert(!row_ok(hs, rws[i as int]));
                    lemma_first_bad_at(hs, rws, i as int);
                }
                return Err(err);
            },
        }
        i = i + 1;
    }
    proof {
        lemma_first_bad_at(hs, rws, rws.len() as int);
    }
    Ok(out)
}

/// A diagnostic naming the required column that the table header lacks.
fn missing_column_text(column: &str) -> (r: String) {
    let mut m = String::new();
    m.append("the table header lacks the required column ");
    m.append(column);
    m
}

} // verus!

//! What the commands decide and print.

use vstd::prelude::*;

use crate::text::{decimal, push_decimal, push_signed, signed_decimal, texts};

verus! {

/// How a search is made.
#[derive(Debug)]
pub enum SearchMode {
    /// In one field.
    Field { name: String },
    /// For words within a distance, of which the stem counts or not.
    Fuzzy { distance: u8, stem: bool },
    /// For words, of which the stem counts or not.
    Words { stem: bool },
}

/// How a search is made: a field goes before a distance.
pub fn search_mode(field: Option<String>, fuzzy_distance: u8, stem: bool) -> (m: SearchMode)
    ensures
        match field {
            Some(f) => m == (SearchMode::Field { name: f }),
            None => if fuzzy_distance > 0 {
                m == (SearchMode::Fuzzy { distance: fuzzy_distance, stem })
            } else {
                m == (SearchMode::Words { stem })
            },
        },
{
    match field {
        Some(name) => SearchMode::Field { name },
        None => if fuzzy_distance > 0 {
            SearchMode::Fuzzy { distance: fuzzy_distance, stem }
        } else {
            SearchMode::Words { stem }
        },
    }
}

/// The line above the results of a search.
pub open spec fn results_line(found: nat, query: Seq<char>) -> Seq<char> {
    if found == 0 {
        "No results found for: "@ + query
    } else {
        "Found "@ + decimal(found) + " result(s) for: "@ + query + seq!['\n']
    }
}

/// The line above the results of a search.
pub fn results_header(found: usize, query: &str) -> (s: String)
    ensures
        s@ == results_line(found as nat, query@),
{
    let mut s = String::new();
    if found == 0 {
        s.push_str("No results found for: ");
        s.push_str(query);
    } else {
        s.push_str("Found ");
        push_decimal(&mut s, found as u64);
        s.push_str(" result(s) for: ");
        s.push_str(query);
        s.push('\n');
    }
    assert(s@ =~= results_line(found as nat, query@));
    s
}

/// What a request to delete documents asks for.
#[derive(Debug)]
pub enum DeleteRequest {
    ByPath { pattern: String },
    ById { id: i64 },
    Nothing,
    Both,
}

/// What a request to delete documents asks for: a path or an id, not both.
pub fn delete_request(path: Option<String>, id: Option<i64>) -> (r: DeleteRequest)
    ensures
        match (path, id) {
            (Some(p), None) => r == (DeleteRequest::ByPath { pattern: p }),
            (None, Some(i)) => r == (DeleteRequest::ById { id: i }),
            (None, None) => r is Nothing,
            (Some(_), Some(_)) => r is Both,
        },
{
    match (path, id) {
        (Some(pattern), None) => DeleteRequest::ByPath { pattern },
        (None, Some(id)) => DeleteRequest::ById { id },
        (None, None) => DeleteRequest::Nothing,
        (Some(_), Some(_)) => DeleteRequest::Both,
    }
}

/// What is printed about a request to delete documents.
pub open spec fn delete_line(r: DeleteRequest, deleted: nat) -> Seq<char> {
    match r {
        DeleteRequest::ByPath { pattern } => "Deleted "@ + decimal(deleted)
            + " document(s) matching path pattern: "@ + pattern@,
        DeleteRequest::ById { id } => "Deleted "@ + decimal(deleted) + " document(s) with id: "@
            + signed_decimal(id as int),
        DeleteRequest::Nothing =>
            "Error: specify --path <regex> or --id <id> to delete documents"@,
        DeleteRequest::Both => "Error: specify only one of --path or --id"@,
    }
}

/// What is printed about a request to delete documents.
pub fn delete_report(r: &DeleteRequest, deleted: u64) -> (s: String)
    ensures
        s@ == delete_line(*r, deleted as nat),
{
    let mut s = String::new();
    match r {
        DeleteRequest::ByPath { pattern } => {
            s.push_str("Deleted ");
            push_decimal(&mut s, deleted);
            s.push_str(" document(s) matching path pattern: ");
            s.push_str(pattern.as_str());
        },
        DeleteRequest::ById { id } => {
            s.push_str("Deleted ");
            push_decimal(&mut s, deleted);
            s.push_str(" document(s) with id: ");
            push_signed(&mut s, *id);
        },
        DeleteRequest::Nothing => {
            s.push_str("Error: specify --path <regex> or --id <id> to delete documents");
        },
        DeleteRequest::Both => {
            s.push_str("Error: specify only one of --path or --id");
        },
    }
    assert(s@ =~= delete_line(*r, deleted as nat));
    s
}

/// The program that recognises characters: the one that was asked for, else
/// the one that was found, else the one that the path gives.
pub fn tesseract_program(asked: Option<String>, found: Option<String>) -> (s: String)
    ensures
        s@ == (match asked {
            Some(p) => p@,
            None => match found {
                Some(p) => p@,
                None => "tesseract"@,
            },
        }),
{
    match asked {
        Some(p) => p,
        None => match found {
            Some(p) => p,
            None => "tesseract".to_owned(),
        },
    }
}

/// What is printed after characters were recognised.
pub open spec fn ocr_line(processed: nat, output: Option<Seq<char>>) -> Seq<char> {
    let done = "OCR processed "@ + decimal(processed) + " document(s)"@;
    match output {
        Some(path) => done + ", output written to "@ + path,
        None => done,
    }
}

/// What is printed after characters were recognised.
pub fn ocr_report(processed: u64, output: Option<&str>) -> (s: String)
    ensures
        s@ == ocr_line(
            processed as nat,
            match output {
                Some(p) => Some(p@),
                None => None,
            },
        ),
{
    let mut s = String::new();
    s.push_str("OCR processed ");
    push_decimal(&mut s, processed);
    s.push_str(" document(s)");
    if let Some(path) = output {
        s.push_str(", output written to ");
        s.push_str(path);
    }
    s
}

/// A job for which recognition was given up: its id, path, checksum and error.
pub type FailedJob = (i64, String, String, Option<String>);

/// The line for a job for which recognition was given up.
pub open spec fn failed_line(j: FailedJob) -> Seq<char> {
    signed_decimal(j.0 as int).push('\t') + j.1@.push('\t') + match j.3 {
        Some(e) => e@,
        None => "unknown"@,
    }
}

/// The lines of the list of jobs for which recognition was given up.
pub open spec fn failed_lines(jobs: Seq<FailedJob>) -> Seq<Seq<char>> {
    if jobs.len() == 0 {
        seq!["No permanently failed OCR items found."@]
    } else {
        seq!["ID\tPath\tError"@] + jobs.map_values(|j: FailedJob| failed_line(j)) + seq![
            "--- "@ + decimal(jobs.len()) + " permanently failed OCR item(s) ---"@,
        ]
    }
}

/// The lines of the list of jobs for which recognition was given up.
pub fn failed_report(jobs: &Vec<FailedJob>) -> (lines: Vec<String>)
    ensures
        texts(lines@) == failed_lines(jobs@),
{
    let mut lines: Vec<String> = Vec::new();
    if jobs.len() == 0 {
        lines.push("No permanently failed OCR items found.".to_owned());
        assert(texts(lines@) =~= failed_lines(jobs@));
        return lines;
    }
    lines.push("ID\tPath\tError".to_owned());
    let ghost body = jobs@.map_values(|j: FailedJob| failed_line(j));
    let mut i: usize = 0;
    assert(texts(lines@) =~= seq!["ID\tPath\tError"@] + body.take(0));
    while i < jobs.len()
        invariant
            i <= jobs@.len(),
            body == jobs@.map_values(|j: FailedJob| failed_line(j)),
            texts(lines@) == seq!["ID\tPath\tError"@] + body.take(i as int),
        decreases jobs@.len() - i,
    {
        let ghost before = lines@;
        let job = &jobs[i];
        let mut s = String::new();
        push_signed(&mut s, job.0);
        s.push('\t');
        s.push_str(job.1.as_str());
        s.push('\t');
        match &job.3 {
            Some(e) => {
                s.push_str(e.as_str());
            },
            None => {
                s.push_str("unknown");
            },
        }
        assert(s@ =~= failed_line(jobs@[i as int]));
        lines.push(s);
        assert(texts(lines@) =~= texts(before).push(failed_line(jobs@[i as int])));
        assert(texts(lines@) =~= seq!["ID\tPath\tError"@] + body.take(i + 1));
        i += 1;
    }
    assert(body.take(i as int) =~= body);
    let ghost before = lines@;
    let mut s = String::new();
    s.push_str("--- ");
    push_decimal(&mut s, jobs.len() as u64);
    s.push_str(" permanently failed OCR item(s) ---");
    assert(s@ =~= "--- "@ + decimal(jobs@.len()) + " permanently failed OCR item(s) ---"@);
    lines.push(s);
    assert(texts(lines@) =~= texts(before).push(s@));
    assert(texts(lines@) =~= failed_lines(jobs@));
    lines
}

/// The report on failed jobs has a line for each job, in order, between a
/// heading and the number of jobs; without jobs it is one line.
pub proof fn law_failed_lines(jobs: Seq<FailedJob>, i: int)
    requires
        0 <= i < jobs.len(),
    ensures
        failed_lines(Seq::empty()).len() == 1,
        failed_lines(jobs).len() == jobs.len() + 2,
        ({
            let line = failed_lines(jobs)[i + 1];
            let error = match jobs[i].3 {
                Some(e) => e@,
                None => "unknown"@,
            };
            let id = signed_decimal(jobs[i].0 as int);
            let n = id.len() as int;
            let m = n + 1 + jobs[i].1@.len();
            &&& line.take(n) == id
            &&& line[n] == '\t'
            &&& line.subrange(n + 1, m) == jobs[i].1@
            &&& line[m] == '\t'
            &&& line.skip(m + 1) == error
        }),
{
    let line = failed_lines(jobs)[i + 1];
    assert(line == failed_line(jobs[i]));
    let error = match jobs[i].3 {
        Some(e) => e@,
        None => "unknown"@,
    };
    let id = signed_decimal(jobs[i].0 as int);
    let n = id.len() as int;
    let m = n + 1 + jobs[i].1@.len();
    assert(line.take(n) =~= id);
    assert(line.subrange(n + 1, m) =~= jobs[i].1@);
    assert(line.skip(m + 1) =~= error);
}

} // verus!

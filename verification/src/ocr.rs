//! Recognition of characters in images: the pixels, the program that does it,
//! and the lines that its workers exchange with the pipeline.

use vstd::prelude::*;

use crate::text::{
    chars_of, is_white, lemma_trim_end, same_text, string_of, trim, trim_start, trimmed,
};

verus! {

// ---------------------------------------------------------------------------
// Settings
// ---------------------------------------------------------------------------

/// Settings of the recognition.
#[derive(Debug)]
pub struct OcrConfig {
    pub tesseract_path: String,
    /// The most pixels of an image in either direction.
    pub max_dim: u32,
    pub max_retries: u32,
    pub language: String,
}

impl Default for OcrConfig {
    fn default() -> (c: OcrConfig)
        ensures
            c.tesseract_path@ == "tesseract"@,
            c.max_dim == 3000,
            c.max_retries == 2,
            c.language@ == "eng"@,
    {
        OcrConfig {
            tesseract_path: "tesseract".to_owned(),
            max_dim: 3000,
            max_retries: 2,
            language: "eng".to_owned(),
        }
    }
}

// ---------------------------------------------------------------------------
// Pixels
// ---------------------------------------------------------------------------

/// A picture in shades of gray, row by row from the top.
#[derive(Debug)]
pub struct GrayPixels {
    pub width: u32,
    pub height: u32,
    pub data: Vec<u8>,
}

impl GrayPixels {
    /// Whether there is one shade for each pixel.
    pub open spec fn wf(self) -> bool {
        self.data@.len() == self.width * self.height
    }
}

/// Black or white.
pub open spec fn above(p: u8, threshold: u8) -> u8 {
    if p > threshold {
        255
    } else {
        0
    }
}

/// Makes every pixel above the threshold white and every other one black.
pub fn apply_threshold(img: &GrayPixels, threshold: u8) -> (out: GrayPixels)
    requires
        img.wf(),
    ensures
        out.wf(),
        out.width == img.width,
        out.height == img.height,
        out.data@ == img.data@.map_values(|p: u8| above(p, threshold)),
{
    let mut data: Vec<u8> = Vec::new();
    let mut i: usize = 0;
    while i < img.data.len()
        invariant
            i <= img.data@.len(),
            data@.len() == i,
            forall|k: int| 0 <= k < i ==> data@[k] == above(img.data@[k], threshold),
        decreases img.data@.len() - i,
    {
        let p = img.data[i];
        data.push(
            if p > threshold {
                255
            } else {
                0
            },
        );
        i += 1;
    }
    assert(data@ =~= img.data@.map_values(|p: u8| above(p, threshold)));
    GrayPixels { width: img.width, height: img.height, data }
}

/// How often a shade occurs.
pub open spec fn shade_count(s: Seq<u8>, v: int) -> nat {
    s.filter(|p: u8| p == v).len()
}

/// How often each shade occurs in a picture.
pub fn histogram(img: &GrayPixels) -> (h: Vec<u64>)
    ensures
        h@.len() == 256,
        forall|v: int| 0 <= v < 256 ==> #[trigger] h@[v] == shade_count(img.data@, v),
{
    let mut h: Vec<u64> = Vec::new();
    while h.len() < 256
        invariant
            h@.len() <= 256,
            forall|v: int| 0 <= v < h@.len() ==> h@[v] == 0,
        decreases 256 - h@.len(),
    {
        h.push(0);
    }
    let ghost all = img.data@;
    let mut i: usize = 0;
    proof {
        reveal(Seq::filter);
        assert(forall|v: int| 0 <= v < 256 ==> #[trigger] h@[v] == shade_count(all.take(0), v));
    }
    while i < img.data.len()
        invariant
            i <= img.data@.len(),
            all == img.data@,
            h@.len() == 256,
            forall|v: int| 0 <= v < 256 ==> #[trigger] h@[v] == shade_count(all.take(i as int), v),
            forall|v: int| 0 <= v < 256 ==> #[trigger] h@[v] <= i,
        decreases img.data@.len() - i,
    {
        let ghost before = h@;
        let p = img.data[i] as usize;
        assert(h@[p as int] <= i);
        let n = h[p] + 1;
        h.set(p, n);
        proof {
            reveal(Seq::filter);
            assert(all.take(i + 1).drop_last() =~= all.take(i as int));
            assert(all.take(i + 1).last() == all[i as int]);
            assert forall|v: int| 0 <= v < 256 implies #[trigger] h@[v] == shade_count(
                all.take(i + 1),
                v,
            ) by {
                assert(before[v] == shade_count(all.take(i as int), v));
            }
        }
        i += 1;
    }
    assert(all.take(i as int) =~= all);
    h
}

/// The pixels of a row.
pub open spec fn row_of(img: GrayPixels, y: int) -> Seq<u8> {
    img.data@.subrange(y * img.width, (y + 1) * img.width)
}

/// How many pixels of each row are black.
pub fn ink_per_row(img: &GrayPixels) -> (sums: Vec<u64>)
    requires
        img.wf(),
    ensures
        sums@.len() == img.height,
        forall|y: int| 0 <= y < img.height ==> #[trigger] sums@[y] == shade_count(row_of(*img, y), 0),
{
    let w = img.width as usize;
    let size: usize = img.data.len();
    let mut sums: Vec<u64> = Vec::new();
    let mut y: u32 = 0;
    let mut at: usize = 0;
    assert(0 * img.width == 0) by (nonlinear_arith);
    while y < img.height
        invariant
            img.wf(),
            w == img.width,
            size == img.data@.len(),
            y <= img.height,
            at == y * img.width,
            sums@.len() == y,
            forall|k: int| 0 <= k < y ==> #[trigger] sums@[k] == shade_count(row_of(*img, k), 0),
        decreases img.height - y,
    {
        proof {
            assert((y + 1) * img.width == y * img.width + img.width) by (nonlinear_arith);
            assert((y + 1) * img.width <= img.height * img.width) by (nonlinear_arith)
                requires
                    y + 1 <= img.height,
            ;
            assert(img.height * img.width == img.width * img.height) by (nonlinear_arith);
        }
        let ghost row = row_of(*img, y as int);
        let mut sum: u64 = 0;
        let mut x: usize = 0;
        proof {
            reveal(Seq::filter);
            assert(shade_count(row.take(0), 0) == 0);
        }
        while x < w
            invariant
                x <= w,
                at + w <= size == img.data@.len(),
                at == y * img.width,
                w == img.width,
                (y + 1) * img.width == y * img.width + img.width,
                row == row_of(*img, y as int),
                row.len() == w,
                sum == shade_count(row.take(x as int), 0),
                sum <= x,
            decreases w - x,
        {
            proof {
                reveal(Seq::filter);
                assert(row.take(x + 1).drop_last() =~= row.take(x as int));
                assert(row.take(x + 1).last() == img.data@[at + x]);
            }
            if img.data[at + x] == 0 {
                sum += 1;
            }
            x += 1;
        }
        assert(row.take(x as int) =~= row);
        sums.push(sum);
        at = at + w;
        y += 1;
    }
    sums
}

/// Whether a picture has to be made smaller.
pub fn is_too_large(width: u32, height: u32, max_dim: u32) -> (b: bool)
    ensures
        b == (width > max_dim || height > max_dim),
{
    width > max_dim || height > max_dim
}

/// The name of the file for the prepared picture of a file.
pub fn preprocessed_name(stem: &str) -> (s: String)
    ensures
        s@ == stem@ + "_preprocessed.png"@,
{
    let mut s = stem.to_owned();
    s.push_str("_preprocessed.png");
    s
}

// ---------------------------------------------------------------------------
// The program
// ---------------------------------------------------------------------------

/// The text that ends the answer for a picture.
pub open spec fn end_marker() -> Seq<char> {
    "---END---"@
}

/// The arguments with which a picture is recognised.
pub open spec fn tesseract_arguments(image: Seq<char>, language: Seq<char>) -> Seq<Seq<char>> {
    seq![image, "stdout"@, "-l"@, language, "--psm"@, "3"@]
}

/// The arguments with which a picture is recognised.
pub fn tesseract_args(image: &str, language: &str) -> (v: Vec<String>)
    ensures
        crate::text::texts(v@) == tesseract_arguments(image@, language@),
{
    let mut v: Vec<String> = Vec::new();
    v.push(image.to_owned());
    v.push("stdout".to_owned());
    v.push("-l".to_owned());
    v.push(language.to_owned());
    v.push("--psm".to_owned());
    v.push("3".to_owned());
    assert(crate::text::texts(v@) =~= tesseract_arguments(image@, language@));
    v
}

/// Why a picture was not recognised.
#[derive(Debug)]
pub enum OcrError {
    /// The program could not be started.
    Launch { program: String },
    /// The program failed with this on its error stream.
    Exit { stderr: String },
    /// The output of the program is no text.
    NotText,
    /// A worker ended before its answer did.
    WorkerGone,
    /// A worker answered with an error.
    Worker { message: String },
}

/// The text of an error.
pub open spec fn ocr_error_text(e: OcrError) -> Seq<char> {
    match e {
        OcrError::Launch { program } => "Failed to run Tesseract. Is '"@ + program@
            + "' installed?"@,
        OcrError::Exit { stderr } => "Tesseract exited with error: "@ + stderr@,
        OcrError::NotText => "Tesseract output is not valid UTF-8"@,
        OcrError::WorkerGone => "Worker process exited unexpectedly"@,
        OcrError::Worker { message } => "Worker error: "@ + message@,
    }
}

impl OcrError {
    /// The text of the error.
    pub fn message(&self) -> (s: String)
        ensures
            s@ == ocr_error_text(*self),
    {
        let mut s = String::new();
        match self {
            OcrError::Launch { program } => {
                s.push_str("Failed to run Tesseract. Is '");
                s.push_str(program.as_str());
                s.push_str("' installed?");
            },
            OcrError::Exit { stderr } => {
                s.push_str("Tesseract exited with error: ");
                s.push_str(stderr.as_str());
            },
            OcrError::NotText => {
                s.push_str("Tesseract output is not valid UTF-8");
            },
            OcrError::WorkerGone => {
                s.push_str("Worker process exited unexpectedly");
            },
            OcrError::Worker { message } => {
                s.push_str("Worker error: ");
                s.push_str(message.as_str());
            },
        }
        assert(s@ =~= ocr_error_text(*self));
        s
    }
}

/// What became of a run of the program: whether it could be started, whether
/// it succeeded, and what it wrote, `None` for output that is no text.
#[derive(Debug)]
pub enum ToolRun {
    NotStarted { program: String },
    Failed { stderr: String },
    Succeeded { stdout: Option<String> },
}

/// The text that a run of the program recognised.
pub fn recognised_text(run: &ToolRun) -> (r: Result<String, OcrError>)
    ensures
        match *run {
            ToolRun::NotStarted { program } => r matches Err(OcrError::Launch { program: p }) && p@
                == program@,
            ToolRun::Failed { stderr } => r matches Err(OcrError::Exit { stderr: s }) && s@ == trim(
                stderr@,
            ),
            ToolRun::Succeeded { stdout: None } => r matches Err(OcrError::NotText),
            ToolRun::Succeeded { stdout: Some(t) } => r matches Ok(s) && s@ == trim(t@),
        },
{
    match run {
        ToolRun::NotStarted { program } => Err(OcrError::Launch { program: program.clone() }),
        ToolRun::Failed { stderr } => Err(OcrError::Exit { stderr: trimmed(stderr.as_str()) }),
        ToolRun::Succeeded { stdout: None } => Err(OcrError::NotText),
        ToolRun::Succeeded { stdout: Some(t) } => Ok(trimmed(t.as_str())),
    }
}

/// Where the program is looked for, before it is looked for on the path.
pub open spec fn tesseract_places() -> Seq<Seq<char>> {
    seq![
        r"C:\Program Files\Tesseract-OCR\tesseract.exe"@,
        r"C:\Program Files (x86)\Tesseract-OCR\tesseract.exe"@,
        "/usr/bin/tesseract"@,
        "/usr/local/bin/tesseract"@,
        "/opt/homebrew/bin/tesseract"@,
    ]
}

/// Where the program is looked for, before it is looked for on the path.
pub fn common_tesseract_paths() -> (v: Vec<String>)
    ensures
        crate::text::texts(v@) == tesseract_places(),
{
    let mut v: Vec<String> = Vec::new();
    v.push(r"C:\Program Files\Tesseract-OCR\tesseract.exe".to_owned());
    v.push(r"C:\Program Files (x86)\Tesseract-OCR\tesseract.exe".to_owned());
    v.push("/usr/bin/tesseract".to_owned());
    v.push("/usr/local/bin/tesseract".to_owned());
    v.push("/opt/homebrew/bin/tesseract".to_owned());
    assert(crate::text::texts(v@) =~= tesseract_places());
    v
}

/// The first of some places that is there, `None` where none is.
pub open spec fn first_there(places: Seq<Seq<char>>, there: Seq<bool>) -> Option<Seq<char>>
    decreases places.len(),
{
    if places.len() == 0 || there.len() == 0 {
        None
    } else if there[0] {
        Some(places[0])
    } else {
        first_there(places.drop_first(), there.drop_first())
    }
}

/// The first of some places that is there, or else the one that the path gives.
pub fn find_tesseract(places: &Vec<String>, there: &Vec<bool>, on_path: Option<String>) -> (r:
    Option<String>)
    requires
        places@.len() == there@.len(),
    ensures
        crate::patterns::opt_text(r) == (match first_there(crate::text::texts(places@), there@) {
            Some(p) => Some(p),
            None => crate::patterns::opt_text(on_path),
        }),
{
    let ghost all = crate::text::texts(places@);
    let mut i: usize = 0;
    assert(all.skip(0) =~= all && there@.skip(0) =~= there@);
    while i < places.len()
        invariant
            i <= places@.len() == there@.len(),
            all == crate::text::texts(places@),
            first_there(all, there@) == first_there(all.skip(i as int), there@.skip(i as int)),
        decreases places@.len() - i,
    {
        assert(all.skip(i as int)[0] == places@[i as int]@);
        assert(all.skip(i as int).drop_first() =~= all.skip(i + 1));
        assert(there@.skip(i as int).drop_first() =~= there@.skip(i + 1));
        if there[i] {
            return Some(places[i].clone());
        }
        i += 1;
    }
    on_path
}

/// The directories in which the program of a worker is looked for: that of
/// this program, those above it, and the one that the environment names.
pub fn worker_search_order(above_exe: Vec<String>, bin_dir: Option<String>) -> (v: Vec<String>)
    ensures
        v@ == (match bin_dir {
            Some(d) => above_exe@.push(d),
            None => above_exe@,
        }),
{
    let mut v = above_exe;
    if let Some(d) = bin_dir {
        v.push(d);
    }
    v
}

// ---------------------------------------------------------------------------
// Workers
// ---------------------------------------------------------------------------

/// Workers that wait for pictures.
pub struct TesseractPool<W> {
    workers: Vec<W>,
}

impl<W> TesseractPool<W> {
    /// The workers that wait.
    pub closed spec fn waiting(self) -> Seq<W> {
        self.workers@
    }

    /// A pool of workers that were started.
    pub fn new(workers: Vec<W>) -> (p: Self)
        ensures
            p.waiting() == workers@,
    {
        TesseractPool { workers }
    }

    /// Takes the worker out of the pool that was put in last.
    pub fn take_worker(&mut self) -> (w: Option<W>)
        ensures
            match w {
                Some(x) => old(self).waiting().len() > 0 && x == old(self).waiting().last()
                    && final(self).waiting() == old(self).waiting().drop_last(),
                None => old(self).waiting().len() == 0 && final(self).waiting() == old(
                    self).waiting(),
            },
    {
        self.workers.pop()
    }

    /// How many workers wait.
    pub fn worker_count(&self) -> (n: usize)
        ensures
            n == self.waiting().len(),
    {
        self.workers.len()
    }
}

/// The arguments of a worker: the program and the language. An option without
/// a value, and any other argument, is passed over; the last value counts.
pub open spec fn worker_options(
    args: Seq<Seq<char>>,
    program: Seq<char>,
    language: Seq<char>,
) -> (Seq<char>, Seq<char>)
    decreases args.len(),
{
    if args.len() == 0 {
        (program, language)
    } else if args[0] == "--tesseract-path"@ && args.len() > 1 {
        worker_options(args.skip(2), args[1], language)
    } else if args[0] == "--lang"@ && args.len() > 1 {
        worker_options(args.skip(2), program, args[1])
    } else {
        worker_options(args.drop_first(), program, language)
    }
}

/// The program and the language that the arguments of a worker name.
pub fn parse_worker_args(args: &Vec<String>) -> (r: (String, String))
    ensures
        (r.0@, r.1@) == worker_options(crate::text::texts(args@), "tesseract"@, "eng"@),
{
    let ghost all = crate::text::texts(args@);
    let mut program = "tesseract".to_owned();
    let mut language = "eng".to_owned();
    let mut i: usize = 0;
    proof {
        reveal_strlit("--tesseract-path");
        reveal_strlit("--lang");
        assert("--tesseract-path"@.len() != "--lang"@.len());
        assert(all.skip(0) =~= all);
    }
    while i < args.len()
        invariant
            i <= args@.len(),
            all == crate::text::texts(args@),
            "--tesseract-path"@.len() != "--lang"@.len(),
            worker_options(all, "tesseract"@, "eng"@) == worker_options(
                all.skip(i as int),
                program@,
                language@,
            ),
        decreases args@.len() - i,
    {
        let ghost rest = all.skip(i as int);
        proof {
            assert(rest[0] == args@[i as int]@);
            assert(rest.drop_first() =~= all.skip(i + 1));
            if i + 1 < all.len() {
                assert(rest.skip(2) =~= all.skip(i + 2));
                assert(rest[1] == args@[i + 1]@);
            }
        }
        if same_text(args[i].as_str(), "--tesseract-path") && i < args.len() - 1 {
            program = args[i + 1].clone();
            i += 2;
        } else if same_text(args[i].as_str(), "--lang") && i < args.len() - 1 {
            language = args[i + 1].clone();
            i += 2;
        } else {
            i += 1;
        }
    }
    (program, language)
}

/// What a line asks of a worker.
#[derive(Debug)]
pub enum WorkerCommand {
    Stop,
    Recognise { path: String },
}

/// What a line asks of a worker: nothing or `EXIT` ends it.
pub fn worker_command(line: &str) -> (c: WorkerCommand)
    ensures
        match c {
            WorkerCommand::Stop => trim(line@).len() == 0 || trim(line@) == "EXIT"@,
            WorkerCommand::Recognise { path } => path@ == trim(line@) && path@.len() > 0 && path@
                != "EXIT"@,
        },
{
    let path = trimmed(line);
    if path.as_str().is_empty() || same_text(path.as_str(), "EXIT") {
        WorkerCommand::Stop
    } else {
        WorkerCommand::Recognise { path }
    }
}

/// What a worker writes about a run of the program.
pub open spec fn worker_reply(run: ToolRun, message: Seq<char>) -> Seq<char> {
    (match run {
        ToolRun::NotStarted { program } => "ERROR:"@ + message,
        ToolRun::Failed { stderr } => "ERROR:"@ + trim(stderr@),
        ToolRun::Succeeded { stdout: Some(t) } => trim(t@),
        ToolRun::Succeeded { stdout: None } => Seq::empty(),
    }) + seq!['\n'] + end_marker() + seq!['\n']
}

/// What a worker writes about a run of the program; `message` says why it
/// could not be started.
pub fn reply_of(run: &ToolRun, message: &str) -> (s: String)
    ensures
        s@ == worker_reply(*run, message@),
{
    let mut s = String::new();
    match run {
        ToolRun::NotStarted { program } => {
            s.push_str("ERROR:");
            s.push_str(message);
        },
        ToolRun::Failed { stderr } => {
            s.push_str("ERROR:");
            let t = trimmed(stderr.as_str());
            s.push_str(t.as_str());
        },
        ToolRun::Succeeded { stdout: Some(text) } => {
            let t = trimmed(text.as_str());
            s.push_str(t.as_str());
        },
        ToolRun::Succeeded { stdout: None } => {},
    }
    s.push('\n');
    s.push_str("---END---");
    s.push('\n');
    assert(s@ =~= worker_reply(*run, message@));
    s
}

/// What a line of an answer does.
#[derive(Debug)]
pub enum ReplyStep {
    More,
    Done,
    Failed(OcrError),
}

/// Whether a text begins with another one.
pub open spec fn starts_with(s: Seq<char>, p: Seq<char>) -> bool {
    p.len() <= s.len() && s.take(p.len() as int) == p
}

/// The text of an answer after one more line.
pub open spec fn with_line(text: Seq<char>, line: Seq<char>) -> Seq<char> {
    if text.len() > 0 {
        text.push('\n') + line
    } else {
        line
    }
}

/// The text of an answer after lines that neither end it nor are errors.
pub open spec fn answer_text(lines: Seq<Seq<char>>) -> Seq<char>
    decreases lines.len(),
{
    if lines.len() == 0 {
        Seq::empty()
    } else {
        with_line(answer_text(lines.drop_last()), trim(lines.last()))
    }
}

/// Whether a line ends an answer or is an error.
pub open spec fn ends_answer(line: Seq<char>) -> bool {
    trim(line) == end_marker() || starts_with(trim(line), "ERROR:"@)
}

/// Reads the answer of a worker line by line.
pub struct ReplyReader {
    text: String,
}

impl ReplyReader {
    /// The text so far.
    pub closed spec fn so_far(self) -> Seq<char> {
        self.text@
    }

    /// A reader before the first line.
    pub fn new() -> (r: Self)
        ensures
            r.so_far() == answer_text(Seq::empty()),
    {
        ReplyReader { text: String::new() }
    }

    /// Takes one more line.
    pub fn on_line(&mut self, line: &str) -> (step: ReplyStep)
        ensures
            match step {
                ReplyStep::Done => trim(line@) == end_marker() && final(self).so_far() == old(
                    self).so_far(),
                ReplyStep::Failed(e) => {
                    &&& trim(line@) != end_marker()
                    &&& starts_with(trim(line@), "ERROR:"@)
                    &&& e matches OcrError::Worker { message } && message@ == trim(line@).skip(6)
                    &&& final(self).so_far() == old(self).so_far()
                },
                ReplyStep::More => !ends_answer(line@) && final(self).so_far() == with_line(
                    old(self).so_far(),
                    trim(line@),
                ),
            },
    {
        let t = trimmed(line);
        if same_text(t.as_str(), "---END---") {
            return ReplyStep::Done;
        }
        let v = chars_of(t.as_str());
        proof {
            reveal_strlit("ERROR:");
            assert("ERROR:"@.len() == 6);
        }
        if v.len() >= 6 && v[0] == 'E' && v[1] == 'R' && v[2] == 'R' && v[3] == 'O' && v[4] == 'R'
            && v[5] == ':' {
            let message = string_of(&v, 6, v.len());
            proof {
                assert(t@.take(6) =~= "ERROR:"@);
                assert(message@ =~= t@.skip(6));
            }
            return ReplyStep::Failed(OcrError::Worker { message });
        }
        proof {
            if starts_with(t@, "ERROR:"@) {
                let h = t@.take(6);
                assert(h[0] == t@[0] && h[1] == t@[1] && h[2] == t@[2]);
                assert(h[3] == t@[3] && h[4] == t@[4] && h[5] == t@[5]);
            }
        }
        if !self.text.as_str().is_empty() {
            self.text.push('\n');
        }
        let ghost mid = self.text@;
        self.text.push_str(t.as_str());
        assert(self.text@ =~= with_line(old(self).so_far(), t@));
        ReplyStep::More
    }

    /// The text of the answer.
    pub fn into_text(self) -> (s: String)
        ensures
            s@ == self.so_far(),
    {
        self.text
    }
}

// ---------------------------------------------------------------------------
// What is read of what is written
// ---------------------------------------------------------------------------

/// The index of the first line feed, or the length where there is none.
pub open spec fn line_feed(s: Seq<char>) -> nat
    decreases s.len(),
{
    if s.len() == 0 || s[0] == '\n' {
        0
    } else {
        1 + line_feed(s.drop_first())
    }
}

proof fn lemma_line_feed(s: Seq<char>)
    ensures
        line_feed(s) <= s.len(),
        line_feed(s) < s.len() ==> s[line_feed(s) as int] == '\n',
        forall|i: int| 0 <= i < line_feed(s) ==> #[trigger] s[i] != '\n',
    decreases s.len(),
{
    if s.len() > 0 && s[0] != '\n' {
        let r = s.drop_first();
        lemma_line_feed(r);
        assert forall|i: int| 0 <= i < line_feed(s) implies #[trigger] s[i] != '\n' by {
            if i > 0 {
                assert(r[i - 1] == s[i]);
            }
        }
    }
}

proof fn lemma_line_feed_at(s: Seq<char>, n: nat)
    requires
        n < s.len(),
        s[n as int] == '\n',
        forall|i: int| 0 <= i < n ==> #[trigger] s[i] != '\n',
    ensures
        line_feed(s) == n,
    decreases n,
{
    if n > 0 {
        let r = s.drop_first();
        assert forall|i: int| 0 <= i < n - 1 implies #[trigger] r[i] != '\n' by {
            assert(s[i + 1] != '\n');
        }
        assert(s[0] != '\n');
        lemma_line_feed_at(r, (n - 1) as nat);
    }
}

/// The pieces of a text between its line feeds.
pub open spec fn pieces(s: Seq<char>) -> Seq<Seq<char>>
    decreases s.len(),
    via pieces_shorter
{
    let n = line_feed(s) as int;
    if n < s.len() {
        seq![s.take(n)] + pieces(s.skip(n + 1))
    } else {
        seq![s]
    }
}

#[via_fn]
proof fn pieces_shorter(s: Seq<char>) {
    lemma_line_feed(s);
}

/// The lines of a stream, each up to its line feed.
pub open spec fn stream_lines(s: Seq<char>) -> Seq<Seq<char>>
    decreases s.len(),
    via stream_lines_shorter
{
    let n = line_feed(s) as int;
    if s.len() == 0 {
        Seq::empty()
    } else if n < s.len() {
        seq![s.take(n)] + stream_lines(s.skip(n + 1))
    } else {
        seq![s]
    }
}

#[via_fn]
proof fn stream_lines_shorter(s: Seq<char>) {
    lemma_line_feed(s);
}

proof fn lemma_stream_lines(a: Seq<char>, rest: Seq<char>)
    ensures
        stream_lines(a.push('\n') + rest) == pieces(a) + stream_lines(rest),
    decreases a.len(),
{
    let s = a.push('\n') + rest;
    lemma_line_feed(a);
    let n = line_feed(a) as int;
    assert forall|i: int| 0 <= i < n implies #[trigger] s[i] != '\n' by {
        assert(s[i] == a[i]);
    }
    assert(s[n] == '\n');
    lemma_line_feed_at(s, n as nat);
    assert(s.take(n) =~= a.take(n));
    if n < a.len() {
        let b = a.skip(n + 1);
        assert(s.skip(n + 1) =~= b.push('\n') + rest);
        lemma_stream_lines(b, rest);
        assert(stream_lines(s) =~= pieces(a) + stream_lines(rest));
    } else {
        assert(a.take(n) =~= a);
        assert(s.skip(n + 1) =~= rest);
        assert(stream_lines(s) =~= pieces(a) + stream_lines(rest));
    }
}

/// What is read of an answer.
pub enum AnswerRead {
    Text(Seq<char>),
    Error(Seq<char>),
    Gone,
}

/// What a reader with the text `text` reads of further lines.
pub open spec fn read_answer(text: Seq<char>, lines: Seq<Seq<char>>) -> AnswerRead
    decreases lines.len(),
{
    if lines.len() == 0 {
        AnswerRead::Gone
    } else if trim(lines[0]) == end_marker() {
        AnswerRead::Text(text)
    } else if starts_with(trim(lines[0]), "ERROR:"@) {
        AnswerRead::Error(trim(lines[0]).skip(6))
    } else {
        read_answer(with_line(text, trim(lines[0])), lines.drop_first())
    }
}

/// The text `text` with further lines.
pub open spec fn with_lines(text: Seq<char>, lines: Seq<Seq<char>>) -> Seq<char>
    decreases lines.len(),
{
    if lines.len() == 0 {
        text
    } else {
        with_lines(with_line(text, trim(lines[0])), lines.drop_first())
    }
}

proof fn lemma_with_lines(text: Seq<char>, lines: Seq<Seq<char>>)
    requires
        lines.len() > 0,
    ensures
        with_lines(text, lines) == with_line(
            with_lines(text, lines.drop_last()),
            trim(lines.last()),
        ),
    decreases lines.len(),
{
    let next = with_line(text, trim(lines[0]));
    if lines.len() == 1 {
        assert(lines.drop_first() =~= Seq::empty());
        assert(lines.drop_last() =~= Seq::empty());
        assert(with_lines(next, lines.drop_first()) == next);
        assert(with_lines(text, lines.drop_last()) == text);
    } else {
        lemma_with_lines(next, lines.drop_first());
        assert(lines.drop_first().drop_last() =~= lines.drop_last().drop_first());
        assert(lines.drop_last()[0] == lines[0]);
    }
}

proof fn lemma_answer_text(lines: Seq<Seq<char>>)
    ensures
        with_lines(Seq::empty(), lines) == answer_text(lines),
    decreases lines.len(),
{
    if lines.len() > 0 {
        lemma_with_lines(Seq::empty(), lines);
        lemma_answer_text(lines.drop_last());
    }
}

proof fn lemma_read_answer(text: Seq<char>, lines: Seq<Seq<char>>, rest: Seq<Seq<char>>)
    requires
        forall|i: int| 0 <= i < lines.len() ==> !ends_answer(#[trigger] lines[i]),
    ensures
        read_answer(text, lines + rest) == read_answer(with_lines(text, lines), rest),
    decreases lines.len(),
{
    if lines.len() == 0 {
        assert(lines + rest =~= rest);
    } else {
        assert(!ends_answer(lines[0]));
        assert((lines + rest).drop_first() =~= lines.drop_first() + rest);
        assert((lines + rest)[0] == lines[0]);
        assert forall|i: int| 0 <= i < lines.drop_first().len() implies !ends_answer(
            #[trigger] lines.drop_first()[i],
        ) by {
            assert(!ends_answer(lines[i + 1]));
        }
        lemma_read_answer(with_line(text, trim(lines[0])), lines.drop_first(), rest);
    }
}

proof fn lemma_marker_lines()
    ensures
        stream_lines(end_marker() + seq!['\n']) == seq![end_marker()],
        trim(end_marker()) == end_marker(),
{
    let m = end_marker();
    reveal_strlit("---END---");
    assert(m.push('\n') + Seq::empty() =~= m + seq!['\n']);
    lemma_stream_lines(m, Seq::empty());
    assert forall|i: int| 0 <= i < m.len() implies #[trigger] m[i] != '\n' by {}
    lemma_line_feed(m);
    assert(line_feed(m) == m.len());
    assert(pieces(m) + stream_lines(Seq::empty()) =~= seq![m]);
    assert(m[0] == '-' && m[8] == '-');
    assert(!is_white('-'));
}

/// What a worker recognised is read as it was written, line by line, where
/// none of its lines looks like the end of an answer or an error.
pub proof fn law_reply_is_read(run: ToolRun, message: Seq<char>, t: String)
    requires
        run == (ToolRun::Succeeded { stdout: Some(t) }),
        forall|i: int|
            0 <= i < pieces(trim(t@)).len() ==> !ends_answer(#[trigger] pieces(trim(t@))[i]),
    ensures
        read_answer(Seq::empty(), stream_lines(worker_reply(run, message))) == AnswerRead::Text(
            answer_text(pieces(trim(t@))),
        ),
{
    let text = trim(t@);
    let rest = end_marker() + seq!['\n'];
    assert(worker_reply(run, message) =~= text.push('\n') + rest);
    lemma_stream_lines(text, rest);
    lemma_marker_lines();
    lemma_read_answer(Seq::empty(), pieces(text), seq![end_marker()]);
    lemma_answer_text(pieces(text));
}

/// A failure of the program is read as an error.
pub proof fn law_failure_is_read(run: ToolRun, message: Seq<char>)
    requires
        run is Failed || run is NotStarted,
    ensures
        read_answer(Seq::empty(), stream_lines(worker_reply(run, message))) is Error,
{
    let said = match run {
        ToolRun::Failed { stderr } => trim(stderr@),
        _ => message,
    };
    reveal_strlit("ERROR:");
    reveal_strlit("---END---");
    let a = "ERROR:"@ + said;
    let rest = end_marker() + seq!['\n'];
    assert(worker_reply(run, message) =~= a.push('\n') + rest);
    lemma_stream_lines(a, rest);
    lemma_line_feed(a);
    let n = line_feed(a) as int;
    assert(n >= 6) by {
        assert(a[0] == 'E' && a[1] == 'R' && a[2] == 'R' && a[3] == 'O' && a[4] == 'R' && a[5]
            == ':');
    }
    let first = pieces(a)[0];
    assert(first =~= a.take(n));
    assert(first[0] == 'E' && first[5] == ':');
    assert(!is_white('E') && !is_white(':'));
    assert(trim_start(first) == first);
    lemma_trim_end(first);
    assert(trim(first).len() >= 6);
    assert(trim(first).take(6) =~= "ERROR:"@);
    assert(trim(first)[0] == 'E');
    assert(end_marker()[0] == '-');
    let lines = pieces(a) + stream_lines(rest);
    assert(lines[0] == first);
}

/// A pixel becomes white where it is brighter than the threshold and black
/// where it is not.
pub proof fn law_threshold(p: u8, threshold: u8)
    ensures
        p > threshold <==> above(p, threshold) == 255,
        p <= threshold <==> above(p, threshold) == 0,
{
}

/// Each pixel counts once, for its own shade.
pub proof fn law_shades(s: Seq<u8>, p: u8, v: int)
    ensures
        shade_count(Seq::empty(), v) == 0,
        shade_count(s.push(p), v) == shade_count(s, v) + if p == v {
            1nat
        } else {
            0
        },
{
    reveal(Seq::filter);
    assert(s.push(p).drop_last() =~= s);
}

/// The pixels of a row stand one behind the other, and rows follow each other.
pub proof fn law_rows(img: GrayPixels, y: int, x: int)
    requires
        img.wf(),
        0 <= y < img.height,
        0 <= x < img.width,
    ensures
        row_of(img, y).len() == img.width,
        row_of(img, y)[x] == img.data@[y * img.width + x],
{
    let (w, h) = (img.width as int, img.height as int);
    assert(0 <= y * w && (y + 1) * w <= h * w && (y + 1) * w == y * w + w) by (nonlinear_arith)
        requires
            0 <= y < h,
            0 <= w,
    ;
    assert(h * w == w * h) by (nonlinear_arith);
}

/// A program is taken from the first place where there is one.
pub proof fn law_first_there(places: Seq<Seq<char>>, there: Seq<bool>)
    requires
        places.len() == there.len(),
    ensures
        match first_there(places, there) {
            Some(p) => exists|i: int|
                0 <= i < places.len() && there[i] && #[trigger] places[i] == p && (forall|k: int|
                    0 <= k < i ==> !#[trigger] there[k]),
            None => forall|i: int| 0 <= i < there.len() ==> !#[trigger] there[i],
        },
    decreases places.len(),
{
    if places.len() > 0 {
        if there[0] {
            assert(places[0] == places[0]);
        } else {
            let (a, b) = (places.drop_first(), there.drop_first());
            law_first_there(a, b);
            if let Some(p) = first_there(a, b) {
                let i = choose|i: int|
                    0 <= i < a.len() && b[i] && #[trigger] a[i] == p && (forall|k: int|
                        0 <= k < i ==> !#[trigger] b[k]);
                assert(places[i + 1] == p && there[i + 1]);
                assert forall|k: int| 0 <= k < i + 1 implies !#[trigger] there[k] by {
                    if k > 0 {
                        assert(b[k - 1] == there[k]);
                    }
                }
            } else {
                assert forall|i: int| 0 <= i < there.len() implies !#[trigger] there[i] by {
                    if i > 0 {
                        assert(b[i - 1] == there[i]);
                    }
                }
            }
        }
    }
}

/// The program and the language of a worker are what is given last behind
/// `--tesseract-path` and `--lang`; other words, and an option with nothing
/// behind it, change nothing.
pub proof fn law_worker_options(
    value: Seq<char>,
    rest: Seq<Seq<char>>,
    program: Seq<char>,
    language: Seq<char>,
)
    ensures
        worker_options(seq!["--tesseract-path"@, value] + rest, program, language)
            == worker_options(rest, value, language),
        worker_options(seq!["--lang"@, value] + rest, program, language) == worker_options(
            rest,
            program,
            value,
        ),
        value != "--tesseract-path"@ && value != "--lang"@ ==> worker_options(
            seq![value] + rest,
            program,
            language,
        ) == worker_options(rest, program, language),
        worker_options(seq!["--tesseract-path"@], program, language) == (program, language),
        worker_options(seq!["--lang"@], program, language) == (program, language),
        worker_options(Seq::empty(), program, language) == (program, language),
{
    reveal_strlit("--tesseract-path");
    reveal_strlit("--lang");
    assert("--tesseract-path"@.len() != "--lang"@.len());
    let a = seq!["--tesseract-path"@, value] + rest;
    assert(a[0] == "--tesseract-path"@ && a[1] == value);
    assert(a.skip(2) =~= rest);
    let b = seq!["--lang"@, value] + rest;
    assert(b[0] == "--lang"@ && b[1] == value);
    assert(b.skip(2) =~= rest);
    let c = seq![value] + rest;
    assert(c[0] == value);
    assert(c.drop_first() =~= rest);
    let none = Seq::<Seq<char>>::empty();
    let d = seq!["--tesseract-path"@];
    assert(d[0] == "--tesseract-path"@);
    assert(d.drop_first() =~= none);
    let e = seq!["--lang"@];
    assert(e[0] == "--lang"@);
    assert(e.drop_first() =~= none);
    assert(worker_options(none, program, language) == (program, language));
}

/// The text of an answer is that of its lines, each without whitespace at its
/// ends, with a line break between each two. Blank lines before the first that
/// is not blank do not count.
pub proof fn law_answer_text(blank: Seq<char>, lines: Seq<Seq<char>>)
    ensures
        trim(blank).len() == 0 ==> answer_text(seq![blank] + lines) == answer_text(lines),
        lines.len() > 0 && trim(lines[0]).len() > 0 ==> answer_text(lines) == crate::text::join(
            lines.map_values(|l: Seq<char>| trim(l)),
            seq!['\n'],
        ) && answer_text(lines).len() > 0,
    decreases lines.len(),
{
    let f = |l: Seq<char>| trim(l);
    reveal_with_fuel(answer_text, 2);
    let more = seq![blank] + lines;
    if lines.len() == 0 {
        assert(more =~= seq![blank]);
        assert(more.drop_last() =~= Seq::empty());
        if trim(blank).len() == 0 {
            assert(trim(blank) =~= Seq::empty());
        }
    } else {
        let d = lines.drop_last();
        law_answer_text(blank, d);
        assert(more.drop_last() =~= seq![blank] + d);
        assert(more.last() == lines.last());
        if trim(lines[0]).len() > 0 {
            let all = lines.map_values(f);
            assert(all.drop_last() =~= d.map_values(f));
            assert(all.last() == trim(lines.last()));
            if d.len() == 0 {
                assert(lines[0] == lines.last());
                assert(all[0] == trim(lines[0]));
            } else {
                assert(d[0] == lines[0]);
                assert(answer_text(d).push('\n') + trim(lines.last()) =~= answer_text(d) + seq![
                    '\n',
                ] + trim(lines.last()));
            }
        }
    }
}

/// A message of one line that comes with a failure is read back as it was
/// sent.
pub proof fn law_failure_message_is_read(run: ToolRun, message: Seq<char>, said: Seq<char>)
    requires
        match run {
            ToolRun::NotStarted { .. } => said == message,
            ToolRun::Failed { stderr } => said == trim(stderr@),
            ToolRun::Succeeded { .. } => false,
        },
        said.len() > 0,
        !is_white(said.last()),
        forall|i: int| 0 <= i < said.len() ==> #[trigger] said[i] != '\n',
    ensures
        read_answer(Seq::empty(), stream_lines(worker_reply(run, message))) == AnswerRead::Error(
            said,
        ),
{
    reveal_strlit("ERROR:");
    reveal_strlit("---END---");
    let a = "ERROR:"@ + said;
    let rest = end_marker() + seq!['\n'];
    assert(worker_reply(run, message) =~= a.push('\n') + rest);
    lemma_stream_lines(a, rest);
    lemma_line_feed(a);
    assert(a[0] == 'E' && a[1] == 'R' && a[2] == 'R' && a[3] == 'O' && a[4] == 'R' && a[5] == ':');
    assert(line_feed(a) == a.len()) by {
        if line_feed(a) < a.len() {
            let n = line_feed(a) as int;
            assert(n >= 6);
            assert(a[n] == said[n - 6]);
        }
    }
    assert(pieces(a) == seq![a]);
    assert(!is_white('E'));
    assert(a.last() == said.last());
    assert(trim_start(a) == a);
    assert(trim(a) == a);
    assert(a.take(6) =~= "ERROR:"@);
    assert(a.skip(6) =~= said);
    assert(end_marker()[0] == '-');
    let lines = pieces(a) + stream_lines(rest);
    assert(lines[0] == a);
}

/// What a worker is told to do with a line is to stop where the line is blank
/// or says `EXIT`, and otherwise to recognise the file that it names.
pub proof fn law_worker_command(line: &str, c: WorkerCommand)
    requires
        call_ensures(worker_command, (line,), c),
    ensures
        (forall|i: int| 0 <= i < line@.len() ==> is_white(#[trigger] line@[i])) ==> c is Stop,
        c matches WorkerCommand::Recognise { path } ==> path@.len() > 0 && path@ != "EXIT"@
            && path@.filter(|x: char| !is_white(x)) == line@.filter(|x: char| !is_white(x)),
        trim(line@) == "EXIT"@ ==> c is Stop,
        (exists|i: int| 0 <= i < line@.len() && !is_white(#[trigger] line@[i])) && trim(line@)
            != "EXIT"@ ==> c is Recognise,
{
    crate::text::law_trim_keeps(line@);
    let (a, b) = crate::text::law_trim(line@);
    if a < b {
        assert(!is_white(line@[a]));
    }
}

/// What a program says is taken without whitespace at its ends and otherwise
/// as it is, whether it succeeded or failed.
pub proof fn law_recognised_text(run: ToolRun, r: Result<String, OcrError>)
    requires
        call_ensures(recognised_text, (&run,), r),
    ensures
        r is Ok <==> run is Succeeded && run->stdout is Some,
        r matches Ok(s) ==> s@.filter(|c: char| !is_white(c)) == run->stdout->0@.filter(
            |c: char| !is_white(c),
        ),
        run matches ToolRun::Failed { stderr } ==> (r matches Err(OcrError::Exit { stderr: s })
            && s@.filter(|c: char| !is_white(c)) == stderr@.filter(|c: char| !is_white(c))),
{
    match run {
        ToolRun::Failed { stderr } => {
            crate::text::law_trim_keeps(stderr@);
        },
        ToolRun::Succeeded { stdout: Some(t) } => {
            crate::text::law_trim_keeps(t@);
        },
        _ => {},
    }
}

} // verus!

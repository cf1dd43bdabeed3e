//! The command-line frontend: how arguments are read, what is asked of the
//! daemon or done to the store, and what is printed.

use crate::clock::Timestamp;
use crate::error::Error;
use crate::ids::{hyphenated_text, parse_uuid_text, parsed_uuid, ItemId};
use crate::ipc::{
    tag_of, AddItemParams, Payload, Request, Response, UpdateItemParams, WatchEvent,
    WatchEventsParams,
};
use crate::model::{Format, FormatView, ItemWithFormats};
use crate::paths::{text_of, thumb_path, thumb_path_of};
use crate::store::db::{
    format_views, is_entry, is_list_result, is_listable, limit_of, listed_ids, mime_of,
};
use crate::store::laws::{
    is_sound, law_format_removed_is_sound, law_item_deleted_is_sound, law_older_deleted_is_sound,
    no_orphans,
};
use crate::store::{inputs, Store, StoreState};
use crate::text::{
    all_digits, at_most, before, chars_of, clone_bytes, clone_texts, decimal, decimal_text,
    digits_value, find_char, first_index, first_line, first_line_of, first_token, first_token_of,
    has_no_margin, is_blank, is_white_space, join2, join3, join_texts, joined, law_before_the_first,
    law_blank_texts, law_cut, law_first_line, law_trimming_leaves_the_core, lemma_first_index,
    pad_left, pad_right, quoted, quoted_text, same_text, spaces, string_of_range, take_chars, texts,
    trim, trimmed, utf8_text, white_space_at,
};
use crate::thumbnail::{image_mime_priority, image_mimes};
use vstd::prelude::*;
use vstd::string::StrSliceExecFns;
use vstd::utf8::{
    decode_utf8, encode_utf8, encode_utf8_decode_utf8, encode_utf8_valid_utf8, valid_utf8,
};

verus! {

// ---------------------------------------------------------------------------
// Application error type
// ---------------------------------------------------------------------------

/// An error of a command.
#[derive(Debug)]
pub enum AppError {
    /// A library error (NotFound → code 2, others → code 1).
    Lib(Error),
    /// A CLI-usage or argument error (always code 1).
    Usage(String),
}

impl AppError {
    /// The exit code: 2 where something was not found, else 1.
    pub open spec fn exit(self) -> int {
        if self == AppError::Lib(Error::NotFound) {
            2
        } else {
            1
        }
    }

    /// The code of the error in JSON output.
    pub open spec fn json_name(self) -> Seq<char> {
        match self {
            AppError::Lib(e) => e.json_name(),
            AppError::Usage(_) => "error"@,
        }
    }

    /// The text under which the error is shown.
    pub open spec fn shown(self) -> Seq<char> {
        match self {
            AppError::Lib(e) => e.shown(),
            AppError::Usage(text) => text@,
        }
    }

    /// A usage error with this text.
    pub open spec fn is_usage(self, text: Seq<char>) -> bool {
        self matches AppError::Usage(t) && t@ == text
    }

    pub fn exit_code(&self) -> (r: i32)
        ensures
            r == self.exit(),
    {
        match self {
            AppError::Lib(e) => e.code(),
            AppError::Usage(_) => 1,
        }
    }

    pub fn json_code(&self) -> (r: &'static str)
        ensures
            r@ == self.json_name(),
    {
        match self {
            AppError::Lib(e) => e.json_code(),
            AppError::Usage(_) => "error",
        }
    }

    pub fn message(&self) -> (r: String)
        ensures
            r@ == self.shown(),
    {
        match self {
            AppError::Lib(e) => e.message(),
            AppError::Usage(s) => s.clone(),
        }
    }
}

/// The line that reports an error to a person.
pub fn error_line(err: &AppError) -> (r: String)
    ensures
        r@ == "error: "@ + err.shown(),
{
    let text = err.message();
    join2("error: ", text.as_str())
}

/// The error of a command that needs the daemon where none is running.
pub fn daemon_not_running() -> (r: AppError)
    ensures
        r.is_usage("richclipd is not running; start the daemon first"@),
{
    AppError::Usage("richclipd is not running; start the daemon first".to_owned())
}

/// The error of a failed exchange with the daemon.
pub fn ipc_error(text: &str) -> (r: AppError)
    ensures
        r.is_usage("IPC error: "@ + text@),
{
    AppError::Usage(join2("IPC error: ", text))
}

/// What a response means for the command: itself where it is a success,
/// `NotFound` where its code says so, else its message.
pub open spec fn response_outcome(
    resp: Response,
    r: std::result::Result<Response, AppError>,
) -> bool {
    if resp.ok {
        r == Ok::<Response, AppError>(resp)
    } else if resp.code matches Some(c) && c@ == "not_found"@ {
        r == Err::<Response, AppError>(AppError::Lib(Error::NotFound))
    } else {
        r matches Err(e) && e.is_usage(
            match resp.error {
                Some(text) => text@,
                None => "unknown error"@,
            },
        )
    }
}

/// Map an IPC `Response` to a CLI `Result`.  Non-ok responses become `AppError`.
pub fn response_to_result(resp: Response) -> (r: std::result::Result<Response, AppError>)
    ensures
        response_outcome(resp, r),
{
    if resp.ok {
        return Ok(resp);
    }
    // Map "not_found" to NotFound so the CLI exits 2.
    let not_found = match &resp.code {
        Some(code) => same_text(code.as_str(), "not_found"),
        None => false,
    };
    if not_found {
        Err(AppError::Lib(Error::NotFound))
    } else {
        match resp.error {
            Some(text) => Err(AppError::Usage(text)),
            None => Err(AppError::Usage("unknown error".to_owned())),
        }
    }
}

/// An error of the library that travels through a response gives the same exit
/// code as it would have given in place.
pub proof fn law_errors_keep_their_exit_code(
    e: Error,
    resp: Response,
    r: std::result::Result<Response, AppError>,
)
    requires
        resp.reports(e),
        response_outcome(resp, r),
    ensures
        r matches Err(err) && err.exit() == AppError::Lib(e).exit() && err.shown() == e.shown(),
{
    reveal_strlit("not_found");
    reveal_strlit("error");
    assert("not_found"@.len() != "error"@.len());
}

/// A response that is a success is handed on as it is, and any other is an
/// error: `NotFound` where its code says so, else its message.
pub proof fn law_responses(resp: Response, r: std::result::Result<Response, AppError>)
    requires
        response_outcome(resp, r),
    ensures
        r is Ok <==> resp.ok,
        r matches Ok(same) ==> same == resp,
        r matches Err(e) ==> {
            &&& e.exit() == 2 <==> resp.code is Some && resp.code->0@ == "not_found"@
            &&& e.exit() == 1 && resp.error is Some ==> e.shown() == resp.error->0@
        },
{
}

/// A command exits with 2 exactly where what it asked for was not found, and
/// with 1 for every other error; the code in JSON output says the same.
pub proof fn law_exit_codes(e: AppError)
    ensures
        e.exit() == 1 || e.exit() == 2,
        e.exit() == 2 <==> e matches AppError::Lib(Error::NotFound),
        e.exit() == 2 <==> e.json_name() == "not_found"@,
        e.exit() == 1 <==> e.json_name() == "error"@,
        e matches AppError::Usage(text) ==> e.shown() == text@,
{
    reveal_strlit("not_found");
    reveal_strlit("error");
    assert("not_found"@.len() != "error"@.len());
}

// ---------------------------------------------------------------------------
// --set-mime parsing
// ---------------------------------------------------------------------------

/// A single parsed --set-mime entry.
#[derive(Debug)]
pub enum MimeSrc {
    /// MIME type and path.
    File(String, String),
    /// MIME type; the content comes from stdin.
    Stdin(String),
}

/// What a [`MimeSrc`] holds.
pub enum SrcView {
    File(Seq<char>, Seq<char>),
    Stdin(Seq<char>),
}

impl View for MimeSrc {
    type V = SrcView;

    open spec fn view(&self) -> SrcView {
        match self {
            MimeSrc::File(mime, path) => SrcView::File(mime@, path@),
            MimeSrc::Stdin(mime) => SrcView::Stdin(mime@),
        }
    }
}

/// What parsed entries hold, in order.
pub open spec fn src_views(list: Seq<MimeSrc>) -> Seq<SrcView> {
    list.map_values(|s: MimeSrc| s@)
}

/// What one --set-mime value stands for, or the text of the error.
pub open spec fn parsed_src(s: Seq<char>) -> std::result::Result<SrcView, Seq<char>> {
    let eq = first_index(s, '=') as int;
    if eq == s.len() {
        Err(
            "--set-mime value must be MIME=SRC (no '=' found in "@ + quoted_text(s) + ")"@,
        )
    } else if eq == 0 {
        Err("--set-mime value has empty MIME type: "@ + quoted_text(s))
    } else {
        let mime = s.take(eq);
        let src = s.skip(eq + 1);
        if src == "-"@ {
            Ok(SrcView::Stdin(mime))
        } else if src.len() > 0 && src[0] == '@' {
            Ok(SrcView::File(mime, src.skip(1)))
        } else {
            Err("--set-mime source must be '-' or '@path', got "@ + quoted_text(src))
        }
    }
}

/// Some entry reads stdin.
pub open spec fn reads_stdin(list: Seq<SrcView>) -> bool {
    exists|i: int| 0 <= i < list.len() && (#[trigger] list[i]) is Stdin
}

/// What all --set-mime values stand for, or the text of the first error. At
/// most one of them may read stdin.
pub open spec fn parsed_srcs(args: Seq<Seq<char>>) -> std::result::Result<Seq<SrcView>, Seq<char>>
    decreases args.len(),
{
    if args.len() == 0 {
        Ok(Seq::empty())
    } else {
        match parsed_srcs(args.drop_last()) {
            Err(e) => Err(e),
            Ok(list) => match parsed_src(args.last()) {
                Err(e) => Err(e),
                Ok(src) => if src is Stdin && reads_stdin(list) {
                    Err(
                        "at most one --set-mime source may be '-' (stdin can only be read once)"@,
                    )
                } else {
                    Ok(list.push(src))
                },
            },
        }
    }
}

/// Once a value fails, the whole line fails with the same error.
proof fn lemma_parse_error_stays(args: Seq<Seq<char>>, n: int)
    requires
        0 <= n <= args.len(),
        parsed_srcs(args.take(n)) is Err,
    ensures
        parsed_srcs(args) == parsed_srcs(args.take(n)),
    decreases args.len() - n,
{
    if n == args.len() {
        assert(args.take(n) =~= args);
    } else {
        assert(args.take(n + 1).drop_last() =~= args.take(n));
        lemma_parse_error_stays(args, n + 1);
    }
}

/// Parse one --set-mime value.
fn parse_src(s: &str) -> (r: std::result::Result<MimeSrc, AppError>)
    ensures
        match r {
            Ok(src) => parsed_src(s@) == Ok::<SrcView, Seq<char>>(src@),
            Err(e) => e matches AppError::Usage(t) && parsed_src(s@) == Err::<SrcView, Seq<char>>(
                t@,
            ),
        },
{
    let chars = chars_of(s);
    // Split on the FIRST '=' only.
    let eq = find_char(chars.as_slice(), '=');
    proof {
        lemma_first_index(s@, '=');
        reveal_strlit("-");
    }
    if eq == chars.len() {
        let q = quoted(s);
        return Err(
            AppError::Usage(
                join3("--set-mime value must be MIME=SRC (no '=' found in ", q.as_str(), ")"),
            ),
        );
    }
    if eq == 0 {
        let q = quoted(s);
        return Err(AppError::Usage(join2("--set-mime value has empty MIME type: ", q.as_str())));
    }
    let mime = string_of_range(chars.as_slice(), 0, eq);
    let src = string_of_range(chars.as_slice(), eq + 1, chars.len());
    assert(mime@ =~= s@.take(eq as int));
    assert(src@ =~= s@.skip(eq + 1));
    if same_text(src.as_str(), "-") {
        Ok(MimeSrc::Stdin(mime))
    } else if chars.len() > eq + 1 && chars[eq + 1] == '@' {
        let path = string_of_range(chars.as_slice(), eq + 2, chars.len());
        assert(path@ =~= src@.skip(1));
        Ok(MimeSrc::File(mime, path))
    } else {
        let q = quoted(src.as_str());
        Err(
            AppError::Usage(join2("--set-mime source must be '-' or '@path', got ", q.as_str())),
        )
    }
}

/// Parse all --set-mime strings. Enforces at most one stdin source.
pub fn parse_set_mime(args: &[String]) -> (r: std::result::Result<Vec<MimeSrc>, AppError>)
    ensures
        match r {
            Ok(list) => parsed_srcs(texts(args@)) == Ok::<Seq<SrcView>, Seq<char>>(
                src_views(list@),
            ),
            Err(e) => e matches AppError::Usage(t) && parsed_srcs(texts(args@)) == Err::<
                Seq<SrcView>,
                Seq<char>,
            >(t@),
        },
{
    let ghost all = texts(args@);
    let mut entries: Vec<MimeSrc> = Vec::new();
    let mut stdin_count: usize = 0;
    let mut i: usize = 0;
    assert(src_views(entries@) =~= Seq::empty());
    assert(all.take(0) =~= Seq::empty());
    while i < args.len()
        invariant
            i <= args@.len(),
            all == texts(args@),
            stdin_count <= 1,
            stdin_count == 1 <==> reads_stdin(src_views(entries@)),
            parsed_srcs(all.take(i as int)) == Ok::<Seq<SrcView>, Seq<char>>(src_views(entries@)),
        decreases args@.len() - i,
    {
        let ghost before = src_views(entries@);
        proof {
            assert(all.take(i + 1).drop_last() =~= all.take(i as int));
            assert(all.take(i + 1).last() == args@[i as int]@);
        }
        let src = match parse_src(args[i].as_str()) {
            Ok(src) => src,
            Err(e) => {
                proof {
                    lemma_parse_error_stays(all, i + 1);
                }
                return Err(e);
            },
        };
        let is_stdin = match &src {
            MimeSrc::Stdin(_) => true,
            MimeSrc::File(_, _) => false,
        };
        if is_stdin {
            if stdin_count == 1 {
                proof {
                    lemma_parse_error_stays(all, i + 1);
                }
                return Err(
                    AppError::Usage(
                        "at most one --set-mime source may be '-' (stdin can only be read once)".to_owned(),
                    ),
                );
            }
            stdin_count += 1;
        }
        let ghost added = src@;
        entries.push(src);
        proof {
            let now = src_views(entries@);
            assert(now =~= before.push(added));
            if reads_stdin(before) {
                let k = choose|k: int| 0 <= k < before.len() && (#[trigger] before[k]) is Stdin;
                assert(now[k] is Stdin);
            }
            if added is Stdin {
                assert(now[before.len() as int] is Stdin);
            }
            if reads_stdin(now) && !(added is Stdin) {
                let k = choose|k: int| 0 <= k < now.len() && (#[trigger] now[k]) is Stdin;
                assert(before[k] is Stdin);
            }
        }
        i += 1;
    }
    assert(all.take(i as int) =~= all);
    Ok(entries)
}

/// Whether stdin has to be read for these entries.
pub fn needs_stdin(srcs: &Vec<MimeSrc>) -> (r: bool)
    ensures
        r == reads_stdin(src_views(srcs@)),
{
    let mut i: usize = 0;
    while i < srcs.len()
        invariant
            i <= srcs@.len(),
            forall|j: int| 0 <= j < i ==> !((#[trigger] src_views(srcs@)[j]) is Stdin),
        decreases srcs@.len() - i,
    {
        match &srcs[i] {
            MimeSrc::Stdin(_) => {
                assert(src_views(srcs@)[i as int] is Stdin);
                return true;
            },
            MimeSrc::File(_, _) => {},
        }
        i += 1;
    }
    false
}

/// How many entries read a file.
pub open spec fn file_count(srcs: Seq<SrcView>) -> nat
    decreases srcs.len(),
{
    if srcs.len() == 0 {
        0
    } else {
        file_count(srcs.drop_last()) + if srcs.last() is File {
            1nat
        } else {
            0nat
        }
    }
}

/// The formats that the entries stand for, given what stdin and the files hold,
/// the files in the order in which they are named.
pub open spec fn resolved(
    srcs: Seq<SrcView>,
    stdin: Seq<u8>,
    files: Seq<Seq<u8>>,
) -> Seq<(Seq<char>, Seq<u8>)>
    decreases srcs.len(),
{
    if srcs.len() == 0 {
        Seq::empty()
    } else {
        let front = resolved(srcs.drop_last(), stdin, files);
        match srcs.last() {
            SrcView::File(mime, _) => front.push(
                (mime, files[file_count(srcs.drop_last()) as int]),
            ),
            SrcView::Stdin(mime) => front.push((mime, stdin)),
        }
    }
}

/// Contents in order.
pub open spec fn contents(list: Seq<Vec<u8>>) -> Seq<Seq<u8>> {
    list.map_values(|b: Vec<u8>| b@)
}

proof fn lemma_file_count(srcs: Seq<SrcView>, n: int)
    requires
        0 <= n <= srcs.len(),
    ensures
        file_count(srcs.take(n)) <= file_count(srcs),
        n < srcs.len() && srcs[n] is File ==> file_count(srcs.take(n)) < file_count(srcs),
    decreases srcs.len() - n,
{
    if n < srcs.len() {
        assert(srcs.take(n + 1).drop_last() =~= srcs.take(n));
        lemma_file_count(srcs, n + 1);
    } else {
        assert(srcs.take(n) =~= srcs);
    }
}

/// Resolve parsed entries into (mime, bytes) pairs, given the content of stdin
/// and of the files in the order in which they are named.
pub fn resolve_mime_srcs(srcs: &Vec<MimeSrc>, stdin: &Vec<u8>, files: &Vec<Vec<u8>>) -> (r: Vec<
    (String, Vec<u8>),
>)
    requires
        files@.len() == file_count(src_views(srcs@)),
    ensures
        inputs(r@) == resolved(src_views(srcs@), stdin@, contents(files@)),
{
    let ghost views = src_views(srcs@);
    let ghost data = contents(files@);
    let mut out: Vec<(String, Vec<u8>)> = Vec::new();
    let total = files.len();
    let mut used: usize = 0;
    let mut i: usize = 0;
    assert(inputs(out@) =~= Seq::empty());
    assert(views.take(0) =~= Seq::empty());
    while i < srcs.len()
        invariant
            i <= srcs@.len(),
            views == src_views(srcs@),
            data == contents(files@),
            files@.len() == file_count(views),
            total == files@.len(),
            used == file_count(views.take(i as int)),
            inputs(out@) == resolved(views.take(i as int), stdin@, data),
        decreases srcs@.len() - i,
    {
        let ghost before = inputs(out@);
        proof {
            assert(views.take(i + 1).drop_last() =~= views.take(i as int));
            assert(views.take(i + 1).last() == srcs@[i as int]@);
            lemma_file_count(views, i as int);
        }
        match &srcs[i] {
            MimeSrc::File(mime, _) => {
                assert(views[i as int] is File);
                let bytes = clone_bytes(files[used].as_slice());
                let ghost pair = (mime@, bytes@);
                out.push((mime.clone(), bytes));
                assert(inputs(out@) =~= before.push(pair));
                used += 1;
            },
            MimeSrc::Stdin(mime) => {
                let bytes = clone_bytes(stdin.as_slice());
                let ghost pair = (mime@, bytes@);
                out.push((mime.clone(), bytes));
                assert(inputs(out@) =~= before.push(pair));
            },
        }
        i += 1;
    }
    assert(views.take(i as int) =~= views);
    out
}

/// A --set-mime value is a MIME type that is not empty, the first `=`, and `-`
/// for stdin or `@` and a path; nothing else is one.
pub proof fn law_set_mime_values(mime: Seq<char>, path: Seq<char>, other: Seq<char>)
    requires
        mime.len() > 0,
        !mime.contains('='),
    ensures
        parsed_src(mime + seq!['=', '-']) == Ok::<SrcView, Seq<char>>(SrcView::Stdin(mime)),
        parsed_src(mime + seq!['=', '@'] + path) == Ok::<SrcView, Seq<char>>(
            SrcView::File(mime, path),
        ),
        parsed_src(mime) is Err,
        parsed_src(seq!['='] + path) is Err,
        other != seq!['-'] && (other.len() == 0 || other[0] != '@') ==> parsed_src(
            mime + seq!['='] + other,
        ) is Err,
{
    reveal_strlit("-");
    assert("-"@ =~= seq!['-']);
    let stdin = mime + seq!['=', '-'];
    let file = mime + seq!['=', '@'] + path;
    let wrong = mime + seq!['='] + other;
    let n = mime.len() as int;
    assert(stdin =~= mime + seq!['='] + seq!['-']);
    assert(file =~= mime + seq!['='] + (seq!['@'] + path));
    lemma_equals_sign(mime, seq!['-']);
    lemma_equals_sign(mime, seq!['@'] + path);
    lemma_equals_sign(mime, other);
    lemma_first_index(mime, '=');
    lemma_first_index(seq!['='] + path, '=');
    assert((seq!['='] + path)[0] == '=');
    assert(stdin.skip(n + 1) =~= seq!['-']);
    assert(file.skip(n + 1) =~= seq!['@'] + path);
    assert(file.skip(n + 1)[0] == '@');
    assert(file.skip(n + 1).skip(1) =~= path);
    assert(file.skip(n + 1) != seq!['-']) by {
        assert(seq!['-'][0] == '-');
    }
    assert(wrong.skip(n + 1) =~= other);
    assert(stdin.take(n) =~= mime && file.take(n) =~= mime);
}

proof fn lemma_equals_sign(mime: Seq<char>, src: Seq<char>)
    requires
        !mime.contains('='),
    ensures
        first_index(mime + seq!['='] + src, '=') == mime.len(),
{
    let s = mime + seq!['='] + src;
    lemma_first_index(s, '=');
    assert(s[mime.len() as int] == '=');
    assert(s.contains('='));
    let n = first_index(s, '=') as int;
    if n < mime.len() {
        assert(s[n] == mime[n]);
    }
}

/// A list of --set-mime values stands for what each of them stands for, in
/// order; it is refused exactly where one of them is, or where two read stdin.
pub proof fn law_set_mime_lists(args: Seq<Seq<char>>)
    ensures
        parsed_srcs(args) matches Ok(list) ==> list.len() == args.len() && (forall|i: int|
            0 <= i < args.len() ==> parsed_src(#[trigger] args[i]) == Ok::<SrcView, Seq<char>>(
                list[i],
            )) && forall|i: int, j: int|
            0 <= i < j < list.len() ==> !((#[trigger] list[i]) is Stdin && (#[trigger] list[j])
                is Stdin),
        parsed_srcs(args) is Err <==> (exists|i: int|
            0 <= i < args.len() && parsed_src(#[trigger] args[i]) is Err) || exists|i: int, j: int|
            0 <= i < j < args.len() && (parsed_src(#[trigger] args[i]) matches Ok(
                SrcView::Stdin(_),
            )) && (parsed_src(#[trigger] args[j]) matches Ok(SrcView::Stdin(_))),
    decreases args.len(),
{
    if args.len() > 0 {
        let front = args.drop_last();
        let last = args.len() - 1;
        law_set_mime_lists(front);
        assert forall|i: int| 0 <= i < front.len() implies #[trigger] front[i] == args[i] by {}
        match parsed_srcs(front) {
            Err(_) => {
                if exists|i: int| 0 <= i < front.len() && parsed_src(#[trigger] front[i]) is Err {
                    let i = choose|i: int|
                        0 <= i < front.len() && parsed_src(#[trigger] front[i]) is Err;
                    assert(parsed_src(args[i]) is Err);
                } else {
                    let (i, j) = choose|i: int, j: int|
                        0 <= i < j < front.len() && (parsed_src(#[trigger] front[i]) matches Ok(
                            SrcView::Stdin(_),
                        )) && (parsed_src(#[trigger] front[j]) matches Ok(SrcView::Stdin(_)));
                    assert(args[i] == front[i] && args[j] == front[j]);
                }
            },
            Ok(list) => {
                assert forall|i: int| 0 <= i < last implies parsed_src(#[trigger] args[i]) == Ok::<
                    SrcView,
                    Seq<char>,
                >(list[i]) by {
                    assert(front[i] == args[i]);
                }
                match parsed_src(args[last]) {
                    Err(_) => {},
                    Ok(src) => {
                        if src is Stdin && reads_stdin(list) {
                            let i = choose|i: int|
                                0 <= i < list.len() && (#[trigger] list[i]) is Stdin;
                            assert(parsed_src(args[i]) matches Ok(SrcView::Stdin(_)));
                            assert(parsed_src(args[last]) matches Ok(SrcView::Stdin(_)));
                        } else {
                            let all = list.push(src);
                            assert(parsed_srcs(args) == Ok::<Seq<SrcView>, Seq<char>>(all));
                            assert forall|i: int, j: int| 0 <= i < j < all.len() implies !((
                            #[trigger] all[i]) is Stdin && (#[trigger] all[j]) is Stdin) by {
                                assert(all[i] == list[i]);
                                if j < list.len() {
                                    assert(all[j] == list[j]);
                                }
                            }
                            if exists|i: int, j: int|
                                0 <= i < j < args.len() && (parsed_src(
                                    #[trigger] args[i],
                                ) matches Ok(SrcView::Stdin(_))) && (parsed_src(
                                    #[trigger] args[j],
                                ) matches Ok(SrcView::Stdin(_))) {
                                let (i, j) = choose|i: int, j: int|
                                    0 <= i < j < args.len() && (parsed_src(
                                        #[trigger] args[i],
                                    ) matches Ok(SrcView::Stdin(_))) && (parsed_src(
                                        #[trigger] args[j],
                                    ) matches Ok(SrcView::Stdin(_)));
                                assert(all[i] is Stdin && all[j] is Stdin);
                            }
                        }
                    },
                }
            },
        }
    }
}

/// Each entry becomes one format, in order and under its own type: what stdin
/// holds where it reads stdin, else the content of its file, where the n-th
/// entry that reads a file reads the n-th.
pub proof fn law_sources_are_resolved(
    srcs: Seq<SrcView>,
    stdin: Seq<u8>,
    files: Seq<Seq<u8>>,
    i: int,
)
    requires
        0 <= i < srcs.len(),
    ensures
        resolved(srcs, stdin, files).len() == srcs.len(),
        srcs[i] matches SrcView::Stdin(mime) ==> resolved(srcs, stdin, files)[i] == (mime, stdin),
        srcs[i] matches SrcView::File(mime, _) ==> resolved(srcs, stdin, files)[i] == (
            mime,
            files[file_count(srcs.take(i)) as int],
        ),
        file_count(srcs.take(0)) == 0,
        file_count(srcs.take(i + 1)) == file_count(srcs.take(i)) + if srcs[i] is File {
            1int
        } else {
            0
        },
    decreases srcs.len(),
{
    let front = srcs.drop_last();
    assert(srcs.take(i + 1).drop_last() =~= srcs.take(i));
    assert(srcs.take(i + 1).last() == srcs[i]);
    assert(srcs.take(0) =~= Seq::empty());
    lemma_resolved_length(front, stdin, files);
    if i < front.len() {
        law_sources_are_resolved(front, stdin, files, i);
        assert(front.take(i) =~= srcs.take(i));
        assert(front[i] == srcs[i]);
    } else {
        assert(front =~= srcs.take(i));
    }
}

proof fn lemma_resolved_length(srcs: Seq<SrcView>, stdin: Seq<u8>, files: Seq<Seq<u8>>)
    ensures
        resolved(srcs, stdin, files).len() == srcs.len(),
    decreases srcs.len(),
{
    if srcs.len() > 0 {
        lemma_resolved_length(srcs.drop_last(), stdin, files);
    }
}

// ---------------------------------------------------------------------------
// Derived label helper
// ---------------------------------------------------------------------------

/// The text that bytes hold, where they are UTF-8.
pub open spec fn text_in(bytes: Option<Seq<u8>>) -> Option<Seq<char>> {
    match bytes {
        Some(b) => if valid_utf8(b) {
            Some(decode_utf8(b))
        } else {
            None
        },
        None => None,
    }
}

/// A text, or nothing where it is empty.
pub open spec fn unless_empty(s: Seq<char>) -> Option<Seq<char>> {
    if s.len() > 0 {
        Some(s)
    } else {
        None
    }
}

/// The label shown for an item: its stored label, trimmed, else the first line
/// of its plain text, trimmed and cut to 60 characters.
pub open spec fn derived_label(label: Option<Seq<u8>>, plain: Option<Seq<u8>>) -> Option<Seq<char>> {
    let stored = match text_in(label) {
        Some(text) => unless_empty(trimmed(text)),
        None => None,
    };
    if stored is Some {
        stored
    } else {
        match text_in(plain) {
            Some(text) => unless_empty(at_most(trimmed(first_line_of(text)), 60)),
            None => None,
        }
    }
}

/// What an optional content holds.
pub open spec fn content_of(bytes: Option<Vec<u8>>) -> Option<Seq<u8>> {
    match bytes {
        Some(b) => Some(b@),
        None => None,
    }
}

/// The label shown for an item with this label format and this plain text.
pub fn label_from(label: &Option<Vec<u8>>, plain: &Option<Vec<u8>>) -> (r: Option<String>)
    ensures
        match r {
            Some(text) => derived_label(content_of(*label), content_of(*plain)) == Some(text@),
            None => derived_label(content_of(*label), content_of(*plain)) is None,
        },
{
    match label {
        Some(bytes) => match utf8_text(bytes.as_slice()) {
            Some(s) => {
                let t = trim(s.as_str());
                if !t.is_empty() {
                    return Some(t.to_owned());
                }
            },
            None => {},
        },
        None => {},
    }
    match plain {
        Some(bytes) => match utf8_text(bytes.as_slice()) {
            Some(s) => {
                let line = first_line(s.as_str());
                let t = trim(line.as_str());
                if !t.is_empty() {
                    // Cut by characters, not bytes, so that none is split.
                    return Some(take_chars(t, 60));
                }
            },
            None => {},
        },
        None => {},
    }
    None
}

/// The label shown for an item of the store.
pub open spec fn item_label(s: StoreState, id: ItemId) -> Option<Seq<char>> {
    derived_label(
        s.content(id, "application/x-richclip-label"@),
        s.content(id, "text/plain"@),
    )
}

/// Derive an item's label: `application/x-richclip-label` first, else a snippet
/// of `text/plain`.
pub fn derive_label(store: &Store, id: ItemId) -> (r: Option<String>)
    requires
        store.wf(),
    ensures
        match r {
            Some(text) => item_label(store@, id) == Some(text@),
            None => item_label(store@, id) is None,
        },
{
    let label = match store.decode(id, "application/x-richclip-label") {
        Ok(bytes) => Some(bytes),
        Err(_) => None,
    };
    let plain = match store.decode(id, "text/plain") {
        Ok(bytes) => Some(bytes),
        Err(_) => None,
    };
    label_from(&label, &plain)
}

/// A format of this type can feed the label of an item.
pub open spec fn feeds_label(mime: Seq<char>) -> bool {
    mime == "application/x-richclip-label"@ || mime == "text/plain"@
}

/// Whether the label of an item can come from a format of this type.
pub fn is_label_source(mime: &str) -> (r: bool)
    ensures
        r == feeds_label(mime@),
{
    same_text(mime, "application/x-richclip-label") || same_text(mime, "text/plain")
}

/// Two stores that agree on the formats that feed labels show the same label,
/// whatever else they hold.
pub proof fn law_label_needs_its_sources_only(a: StoreState, b: StoreState, id: ItemId)
    requires
        forall|mime: Seq<char>|
            feeds_label(mime) ==> #[trigger] a.content(id, mime) == b.content(id, mime),
    ensures
        item_label(a, id) == item_label(b, id),
{
    assert(feeds_label("application/x-richclip-label"@) && feeds_label("text/plain"@));
}

/// A derived label is never empty, and a snippet is at most 60 characters.
pub proof fn law_label_is_short(label: Option<Seq<u8>>, plain: Option<Seq<u8>>)
    ensures
        derived_label(label, plain) matches Some(text) ==> text.len() > 0,
        (text_in(label) matches Some(stored) ==> trimmed(stored).len() == 0) ==> (derived_label(
            label,
            plain,
        ) matches Some(text) ==> text.len() <= 60),
{
}

/// The first line of a text, trimmed, where it is `core` between white space.
proof fn lemma_trimmed_first_line(
    lead: Seq<char>,
    core: Seq<char>,
    trail: Seq<char>,
    rest: Seq<char>,
)
    requires
        is_blank(lead),
        is_blank(trail),
        has_no_margin(core),
        !(lead + core + trail).contains('\n'),
    ensures
        trimmed(first_line_of(lead + core + trail)) == core,
        trimmed(first_line_of(lead + core + trail + seq!['\n'] + rest)) == core,
{
    let line = lead + core + trail;
    law_trimming_leaves_the_core(lead, core, trail);
    law_first_line(line, rest);
    if line.len() > 0 && line[line.len() - 1] == '\r' {
        let front = line.drop_last();
        assert(!front.contains('\n')) by {
            if front.contains('\n') {
                let i = choose|i: int| 0 <= i < front.len() && front[i] == '\n';
                assert(line[i] == '\n');
            }
        }
        law_first_line(front, rest);
        assert(front + seq!['\r', '\n'] + rest =~= line + seq!['\n'] + rest);
        if trail.len() > 0 {
            let less = trail.drop_last();
            assert forall|i: int| 0 <= i < less.len() implies is_white_space(
                #[trigger] less[i],
            ) by {
                assert(less[i] == trail[i]);
            }
            assert(front =~= lead + core + less);
            law_trimming_leaves_the_core(lead, core, less);
        } else if core.len() > 0 {
            assert(line.last() == core[core.len() - 1]);
        } else {
            let less = lead.drop_last();
            assert forall|i: int| 0 <= i < less.len() implies is_white_space(
                #[trigger] less[i],
            ) by {
                assert(less[i] == lead[i]);
            }
            assert(front =~= less + core + trail);
            law_trimming_leaves_the_core(less, core, trail);
        }
    }
}

/// Without a stored label, or with a blank one, the label of an item is the
/// first line of its plain text without the white space around it: all of it
/// where it has at most 60 characters, else its first 60. Where that line is
/// blank there is no label.
pub proof fn law_label_is_the_first_line(
    label: Option<Seq<u8>>,
    plain: Seq<u8>,
    lead: Seq<char>,
    core: Seq<char>,
    trail: Seq<char>,
    rest: Seq<char>,
)
    requires
        label matches Some(stored) ==> !valid_utf8(stored) || is_blank(decode_utf8(stored)),
        valid_utf8(plain),
        is_blank(lead),
        is_blank(trail),
        has_no_margin(core),
        !(lead + core + trail).contains('\n'),
        decode_utf8(plain) == lead + core + trail || decode_utf8(plain) == lead + core + trail
            + seq!['\n'] + rest,
    ensures
        core.len() == 0 ==> derived_label(label, Some(plain)) is None,
        core.len() > 0 ==> (derived_label(label, Some(plain)) matches Some(text) && {
            &&& text.is_prefix_of(core)
            &&& text.len() == if core.len() <= 60 {
                core.len()
            } else {
                60
            }
        }),
        0 < core.len() <= 60 ==> derived_label(label, Some(plain)) == Some(core),
{
    lemma_trimmed_first_line(lead, core, trail, rest);
    law_cut(core, 60);
    if label is Some && valid_utf8(label->0) {
        law_blank_texts(decode_utf8(label->0));
    }
}

/// A stored label that is not blank is the label, in full and without the white
/// space around it, whatever the plain text is.
pub proof fn law_stored_label_is_shown(
    label: Seq<u8>,
    plain: Option<Seq<u8>>,
    lead: Seq<char>,
    core: Seq<char>,
    trail: Seq<char>,
)
    requires
        valid_utf8(label),
        is_blank(lead),
        is_blank(trail),
        has_no_margin(core),
        core.len() > 0,
        decode_utf8(label) == lead + core + trail,
    ensures
        derived_label(Some(label), plain) == Some(core),
{
    law_trimming_leaves_the_core(lead, core, trail);
}

/// There is no label where the stored one is missing, blank or no text, and the
/// plain text is missing or no text.
pub proof fn law_no_label_without_a_text(label: Option<Seq<u8>>, plain: Option<Seq<u8>>)
    requires
        label matches Some(stored) ==> !valid_utf8(stored) || is_blank(decode_utf8(stored)),
        plain matches Some(text) ==> !valid_utf8(text),
    ensures
        derived_label(label, plain) is None,
{
    if label is Some && valid_utf8(label->0) {
        law_blank_texts(decode_utf8(label->0));
    }
}

/// The label of an item comes from what is stored for it under
/// `application/x-richclip-label`, and from its `text/plain` where that gives
/// none; an item with neither has no label.
pub proof fn law_label_sources(
    s: StoreState,
    id: ItemId,
    text: Seq<char>,
    core: Seq<char>,
)
    requires
        has_no_margin(core),
        0 < core.len() <= 60,
        !core.contains('\n'),
    ensures
        s.content(id, "application/x-richclip-label"@) == Some(encode_utf8(core)) ==> item_label(
            s,
            id,
        ) == Some(core),
        s.content(id, "application/x-richclip-label"@) is None && s.content(id, "text/plain"@)
            == Some(encode_utf8(core + seq!['\n'] + text)) ==> item_label(s, id) == Some(core),
        s.content(id, "application/x-richclip-label"@) is None && s.content(id, "text/plain"@)
            is None ==> item_label(s, id) is None,
{
    let none = Seq::<char>::empty();
    let all = core + seq!['\n'] + text;
    encode_utf8_valid_utf8(core);
    encode_utf8_valid_utf8(all);
    encode_utf8_decode_utf8(core);
    encode_utf8_decode_utf8(all);
    assert(none + core + none =~= core);
    law_stored_label_is_shown(encode_utf8(core), s.content(id, "text/plain"@), none, core, none);
    law_label_is_the_first_line(None, encode_utf8(all), none, core, none, text);
}

// ---------------------------------------------------------------------------
// Relative time helper
// ---------------------------------------------------------------------------

/// What `humantime::format_duration` writes for a number of seconds.
pub uninterp spec fn human_duration(secs: u64) -> Seq<char>;

/// `humantime::format_duration`: a duration of whole seconds in words, a
/// function of the seconds alone.
#[verifier::external_body]
fn format_secs(secs: u64) -> (r: String)
    ensures
        r@ == human_duration(secs),
{
    humantime::format_duration(std::time::Duration::from_secs(secs)).to_string()
}

/// How long ago something was, in its largest unit: seconds below a minute,
/// else the first word of the duration in words.
pub open spec fn ago(secs: u64, words: Seq<char>) -> Seq<char> {
    if secs < 60 {
        decimal(secs as nat) + "s ago"@
    } else if first_token_of(words).len() == 0 {
        "? ago"@
    } else {
        first_token_of(words) + " ago"@
    }
}

/// How long ago something was, given its duration in words.
pub fn ago_text(secs: u64, words: &str) -> (r: String)
    ensures
        r@ == ago(secs, words@),
{
    if secs < 60 {
        let n = decimal_text(secs);
        return join2(n.as_str(), "s ago");
    }
    match first_token(words) {
        Some(t) => join2(t.as_str(), " ago"),
        None => "? ago".to_owned(),
    }
}

/// How long before `now` the instant `ts` was; an instant in the future is 0
/// seconds ago.
pub fn relative_time(now: Timestamp, ts: Timestamp) -> (r: String)
    requires
        now.wf(),
        ts.wf(),
    ensures
        r@ == ago(now.seconds_since(ts) as u64, human_duration(now.seconds_since(ts) as u64)),
        ts.nanos > now.nanos ==> r@ == decimal(0) + "s ago"@,
        0 <= now.nanos - ts.nanos < 60_000_000_000 ==> r@ == decimal(
            ((now.nanos - ts.nanos) / 1_000_000_000) as nat,
        ) + "s ago"@,
{
    let secs = now.since(ts);
    let words = format_secs(secs);
    ago_text(secs, words.as_str())
}

/// Below a minute an age is its seconds, and above it the first word of the
/// duration in words, whatever words follow.
pub proof fn law_age_is_one_word(
    secs: u64,
    lead: Seq<char>,
    word: Seq<char>,
    blank: char,
    rest: Seq<char>,
)
    requires
        is_blank(lead),
        word.len() > 0,
        forall|i: int| 0 <= i < word.len() ==> !is_white_space(#[trigger] word[i]),
        is_white_space(blank),
    ensures
        secs < 60 ==> ago(secs, lead + word + seq![blank] + rest) == decimal(secs as nat)
            + "s ago"@,
        secs >= 60 ==> ago(secs, lead + word) == word + " ago"@,
        secs >= 60 ==> ago(secs, lead + word + seq![blank] + rest) == word + " ago"@,
        secs >= 60 ==> ago(secs, lead) == "? ago"@,
    decreases lead.len(),
{
    if lead.len() > 0 {
        let less = lead.drop_first();
        assert forall|i: int| 0 <= i < less.len() implies is_white_space(#[trigger] less[i]) by {
            assert(less[i] == lead[i + 1]);
        }
        law_age_is_one_word(secs, less, word, blank, rest);
        assert((lead + word).drop_first() =~= less + word);
        assert((lead + word + seq![blank] + rest).drop_first() =~= less + word + seq![blank]
            + rest);
        assert((lead + word)[0] == lead[0]);
        assert((lead + word + seq![blank] + rest)[0] == lead[0]);
    } else {
        let all = word + seq![blank] + rest;
        assert(lead + word =~= word);
        assert(lead + word + seq![blank] + rest =~= all);
        assert(word[0] == all[0]);
        lemma_word_end(word, seq![blank] + rest);
        assert(all =~= word + (seq![blank] + rest));
        lemma_word_end(word, Seq::empty());
        assert(word =~= word + Seq::<char>::empty());
        assert(word.take(word.len() as int) =~= word);
        assert(all.take(word.len() as int) =~= word);
    }
}

proof fn lemma_word_end(word: Seq<char>, rest: Seq<char>)
    requires
        forall|i: int| 0 <= i < word.len() ==> !is_white_space(#[trigger] word[i]),
        rest.len() == 0 || is_white_space(rest[0]),
    ensures
        white_space_at(word + rest) == word.len(),
    decreases word.len(),
{
    if word.len() > 0 {
        let less = word.drop_first();
        assert((word + rest).drop_first() =~= less + rest);
        assert((word + rest)[0] == word[0]);
        assert forall|i: int| 0 <= i < less.len() implies !is_white_space(#[trigger] less[i]) by {
            assert(less[i] == word[i + 1]);
        }
        lemma_word_end(less, rest);
    } else {
        assert(word + rest =~= rest);
    }
}

// ---------------------------------------------------------------------------
// UUID parsing helper
// ---------------------------------------------------------------------------

/// Read an item id.
pub fn parse_uuid(s: &str) -> (r: std::result::Result<ItemId, AppError>)
    ensures
        match r {
            Ok(id) => parsed_uuid(s@) == Ok::<u128, Seq<char>>(id.bits),
            Err(e) => parsed_uuid(s@) is Err && e.is_usage("invalid id: "@ + quoted_text(s@)),
        },
        forall|u: u128| s@ == #[trigger] hyphenated_text(u) ==> r is Ok && r->Ok_0.bits == u,
{
    match parse_uuid_text(s) {
        Ok(id) => Ok(id),
        Err(_) => {
            let q = quoted(s);
            Err(AppError::Usage(join2("invalid id: ", q.as_str())))
        },
    }
}

// ---------------------------------------------------------------------------
// Durations
// ---------------------------------------------------------------------------

/// What `humantime::parse_duration` makes of a text: seconds and nanoseconds,
/// or the text of the error.
pub uninterp spec fn parsed_duration(s: Seq<char>) -> std::result::Result<(u64, u32), Seq<char>>;

/// The nanoseconds of a unit of time; none of one that is not known.
pub open spec fn unit_nanos(unit: Seq<char>) -> int {
    if unit == "nanos"@
        || unit == "nsec"@
        || unit == "ns"@ {
        1
    } else if unit == "usec"@
        || unit == "us"@
        || unit == "µs"@ {
        1_000
    } else if unit == "millis"@
        || unit == "msec"@
        || unit == "ms"@ {
        1_000_000
    } else if unit == "seconds"@
        || unit == "second"@
        || unit == "secs"@
        || unit == "sec"@
        || unit == "s"@ {
        1_000_000_000
    } else if unit == "minutes"@
        || unit == "minute"@
        || unit == "min"@
        || unit == "mins"@
        || unit == "m"@ {
        60_000_000_000
    } else if unit == "hours"@
        || unit == "hour"@
        || unit == "hr"@
        || unit == "hrs"@
        || unit == "h"@ {
        3_600_000_000_000
    } else if unit == "days"@
        || unit == "day"@
        || unit == "d"@ {
        86_400_000_000_000
    } else if unit == "weeks"@
        || unit == "week"@
        || unit == "wk"@
        || unit == "wks"@
        || unit == "w"@ {
        604_800_000_000_000
    } else if unit == "months"@
        || unit == "month"@
        || unit == "M"@ {
        2_630_016_000_000_000
    } else if unit == "years"@
        || unit == "year"@
        || unit == "yr"@
        || unit == "yrs"@
        || unit == "y"@ {
        31_557_600_000_000_000
    } else {
        0
    }
}

/// One nanosecond more than a duration can hold: 2^64 seconds.
pub const FULL_NANOS: u128 = 18_446_744_073_709_551_616_000_000_000;

/// One more than a number of a duration can be: 2^64.
pub const FULL_NUMBER: u128 = 18_446_744_073_709_551_616;

/// The largest denominator of a fraction: of nineteen digits.
pub const FULL_DENOMINATOR: u128 = 10_000_000_000_000_000_000;

/// What has been read of a duration.
pub struct DurationScan {
    /// The nanoseconds so far, or one more than a duration's limit where there
    /// are more.
    pub total: int,
    /// The number that is being read, or 2^64 where it is larger.
    pub number: int,
    /// The fraction behind it, as far as nineteen digits.
    pub numerator: int,
    pub denominator: int,
    /// The fraction has begun.
    pub fraction: bool,
    /// The unit that is being read.
    pub unit: Seq<char>,
    /// The total has been exactly 2^64 seconds.
    pub full: bool,
}

/// The smaller of the two.
pub open spec fn at_most_int(n: int, limit: int) -> int {
    if n > limit {
        limit
    } else {
        n
    }
}

impl DurationScan {
    /// Nothing has been read.
    pub open spec fn start() -> DurationScan {
        DurationScan {
            total: 0,
            number: 0,
            numerator: 0,
            denominator: 1,
            fraction: false,
            unit: Seq::empty(),
            full: false,
        }
    }

    /// The number and its unit are complete: first the whole number is added,
    /// then its fraction.
    pub open spec fn added(self) -> DurationScan {
        let nanos = unit_nanos(self.unit);
        let whole = at_most_int(self.total + self.number * nanos, FULL_NANOS + 1);
        let all = at_most_int(
            whole + self.numerator * nanos / self.denominator,
            FULL_NANOS + 1,
        );
        DurationScan {
            total: all,
            full: self.full || whole == FULL_NANOS || all == FULL_NANOS,
            ..DurationScan::start()
        }
    }

    /// One more digit.
    pub open spec fn digit(self, d: int) -> DurationScan {
        if !self.fraction {
            DurationScan { number: at_most_int(10 * self.number + d, FULL_NUMBER as int), ..self }
        } else if self.denominator < FULL_DENOMINATOR {
            DurationScan {
                numerator: 10 * self.numerator + d,
                denominator: 10 * self.denominator,
                ..self
            }
        } else {
            self
        }
    }

    /// One more character: what is neither a digit, a point nor a letter ends a
    /// unit, and so does a digit.
    pub open spec fn next(self, c: char) -> DurationScan {
        let ended = if self.unit.len() > 0 {
            self.added()
        } else {
            self
        };
        if '0' <= c <= '9' {
            ended.digit(c as int - '0' as int)
        } else if c == '.' {
            DurationScan { fraction: true, ..self }
        } else if 'a' <= c <= 'z' || 'A' <= c <= 'Z' || c == 'µ' {
            DurationScan { unit: self.unit.push(c), ..self }
        } else {
            ended
        }
    }
}

/// What the characters of a duration say.
pub open spec fn scanned(s: Seq<char>) -> DurationScan
    decreases s.len(),
{
    if s.len() == 0 {
        DurationScan::start()
    } else {
        scanned(s.drop_last()).next(s.last())
    }
}

/// Read from its beginning, the text comes to exactly 2^64 seconds. That is no
/// duration: it is one nanosecond more than the longest.
pub open spec fn is_overfull(s: Seq<char>) -> bool {
    scanned(s).added().full
}

/// `humantime::parse_duration`: a duration in words, a function of the text
/// alone. The nanoseconds are less than a second. A text that comes to exactly
/// 2^64 seconds can make it panic.
#[verifier::external_body]
fn duration_of(s: &str) -> (r: std::result::Result<(u64, u32), String>)
    requires
        !is_overfull(s@),
    ensures
        match r {
            Ok(d) => parsed_duration(s@) == Ok::<(u64, u32), Seq<char>>(d) && d.1 < 1_000_000_000,
            Err(e) => parsed_duration(s@) == Err::<(u64, u32), Seq<char>>(e@),
        },
{
    humantime::parse_duration(s).map(|d| (d.as_secs(), d.subsec_nanos())).map_err(|e| e.to_string())
}

fn nanos_of_unit(unit: &str) -> (r: u128)
    ensures
        r == unit_nanos(unit@),
        r <= 31_557_600_000_000_000,
{
    if same_text(unit, "nanos")
        || same_text(unit, "nsec")
        || same_text(unit, "ns") {
        1
    } else if same_text(unit, "usec")
        || same_text(unit, "us")
        || same_text(unit, "µs") {
        1_000
    } else if same_text(unit, "millis")
        || same_text(unit, "msec")
        || same_text(unit, "ms") {
        1_000_000
    } else if same_text(unit, "seconds")
        || same_text(unit, "second")
        || same_text(unit, "secs")
        || same_text(unit, "sec")
        || same_text(unit, "s") {
        1_000_000_000
    } else if same_text(unit, "minutes")
        || same_text(unit, "minute")
        || same_text(unit, "min")
        || same_text(unit, "mins")
        || same_text(unit, "m") {
        60_000_000_000
    } else if same_text(unit, "hours")
        || same_text(unit, "hour")
        || same_text(unit, "hr")
        || same_text(unit, "hrs")
        || same_text(unit, "h") {
        3_600_000_000_000
    } else if same_text(unit, "days")
        || same_text(unit, "day")
        || same_text(unit, "d") {
        86_400_000_000_000
    } else if same_text(unit, "weeks")
        || same_text(unit, "week")
        || same_text(unit, "wk")
        || same_text(unit, "wks")
        || same_text(unit, "w") {
        604_800_000_000_000
    } else if same_text(unit, "months")
        || same_text(unit, "month")
        || same_text(unit, "M") {
        2_630_016_000_000_000
    } else if same_text(unit, "years")
        || same_text(unit, "year")
        || same_text(unit, "yr")
        || same_text(unit, "yrs")
        || same_text(unit, "y") {
        31_557_600_000_000_000
    } else {
        0
    }
}

/// What has been read of a duration.
struct Scan {
    total: u128,
    number: u128,
    numerator: u128,
    denominator: u128,
    fraction: bool,
    unit: String,
    full: bool,
}

impl View for Scan {
    type V = DurationScan;

    closed spec fn view(&self) -> DurationScan {
        DurationScan {
            total: self.total as int,
            number: self.number as int,
            numerator: self.numerator as int,
            denominator: self.denominator as int,
            fraction: self.fraction,
            unit: self.unit@,
            full: self.full,
        }
    }
}

fn smaller(n: u128, limit: u128) -> (r: u128)
    ensures
        r == at_most_int(n as int, limit as int),
{
    if n > limit {
        limit
    } else {
        n
    }
}

impl Scan {
    /// No number is larger than it can be.
    spec fn wf(self) -> bool {
        &&& self.total <= FULL_NANOS + 1
        &&& self.number <= FULL_NUMBER
        &&& self.numerator < self.denominator
        &&& 1 <= self.denominator <= 10 * FULL_DENOMINATOR
    }

    fn new() -> (r: Scan)
        ensures
            r.wf(),
            r@ == DurationScan::start(),
    {
        let r = Scan {
            total: 0,
            number: 0,
            numerator: 0,
            denominator: 1,
            fraction: false,
            unit: String::new(),
            full: false,
        };
        assert(r.unit@ =~= Seq::empty());
        r
    }

    fn add(&mut self)
        requires
            old(self).wf(),
        ensures
            final(self).wf(),
            final(self)@ == old(self)@.added(),
    {
        let nanos = nanos_of_unit(self.unit.as_str());
        let number = self.number;
        let numerator = self.numerator;
        let denominator = self.denominator;
        assert(0 <= number * nanos <= 18_446_744_073_709_551_616 * 31_557_600_000_000_000)
            by (nonlinear_arith)
            requires
                0 <= number <= 18_446_744_073_709_551_616,
                0 <= nanos <= 31_557_600_000_000_000,
        ;
        assert(0 <= numerator * nanos <= 100_000_000_000_000_000_000 * 31_557_600_000_000_000)
            by (nonlinear_arith)
            requires
                0 <= numerator <= 100_000_000_000_000_000_000,
                0 <= nanos <= 31_557_600_000_000_000,
        ;
        let part: u128 = numerator * nanos / denominator;
        assert(part <= numerator * nanos) by (nonlinear_arith)
            requires
                part == (numerator * nanos) / (denominator as int),
                denominator >= 1,
                numerator * nanos >= 0,
        ;
        let whole = smaller(self.total + number * nanos, FULL_NANOS + 1);
        let all = smaller(whole + part, FULL_NANOS + 1);
        self.full = self.full || whole == FULL_NANOS || all == FULL_NANOS;
        self.total = all;
        self.number = 0;
        self.numerator = 0;
        self.denominator = 1;
        self.fraction = false;
        self.unit = String::new();
        assert(self.unit@ =~= Seq::empty());
    }

    fn step(&mut self, c: char)
        requires
            old(self).wf(),
        ensures
            final(self).wf(),
            final(self)@ == old(self)@.next(c),
    {
        if c == '.' {
            self.fraction = true;
            return;
        }
        if ('a' <= c && c <= 'z') || ('A' <= c && c <= 'Z') || c == 'µ' {
            self.unit.push(c);
            return;
        }
        if self.unit.as_str().unicode_len() > 0 {
            self.add();
        }
        if '0' <= c && c <= '9' {
            let d: u128 = c as u128 - '0' as u128;
            if !self.fraction {
                self.number = smaller(10 * self.number + d, FULL_NUMBER);
            } else if self.denominator < FULL_DENOMINATOR {
                self.numerator = 10 * self.numerator + d;
                self.denominator = 10 * self.denominator;
            }
        }
    }
}

fn overfills(s: &str) -> (r: bool)
    ensures
        r == is_overfull(s@),
{
    let chars = chars_of(s);
    let mut scan = Scan::new();
    let mut i: usize = 0;
    assert(chars@.take(0) =~= Seq::empty());
    while i < chars.len()
        invariant
            i <= chars@.len(),
            scan.wf(),
            scan@ == scanned(chars@.take(i as int)),
        decreases chars@.len() - i,
    {
        assert(chars@.take(i + 1).drop_last() =~= chars@.take(i as int));
        scan.step(chars[i]);
        i += 1;
    }
    assert(chars@.take(i as int) =~= chars@);
    scan.add();
    scan.full
}

/// The outcome of reading a duration. One that comes to exactly 2^64 seconds is
/// refused as any other that is too large.
pub open spec fn duration_outcome(s: Seq<char>) -> std::result::Result<(u64, u32), Seq<char>> {
    let r = if is_overfull(s) {
        Err(
            "number is too large or cannot be represented without a lack of precision (values below 1ns are not supported)"@,
        )
    } else {
        parsed_duration(s)
    };
    match r {
        Ok(d) => Ok(d),
        Err(text) => Err("invalid duration "@ + quoted_text(s) + ": "@ + text),
    }
}

/// Read the duration of `--older-than`: seconds and nanoseconds.
pub fn parse_older_than(s: &str) -> (r: std::result::Result<(u64, u32), AppError>)
    ensures
        match duration_outcome(s@) {
            Ok(d) => r == Ok::<(u64, u32), AppError>(d),
            Err(text) => r matches Err(e) && e.is_usage(text),
        },
{
    let q = quoted(s);
    let head = join3("invalid duration ", q.as_str(), ": ");
    if overfills(s) {
        return Err(
            AppError::Usage(
                join2(
                    head.as_str(),
                    "number is too large or cannot be represented without a lack of precision (values below 1ns are not supported)",
                ),
            ),
        );
    }
    match duration_of(s) {
        Ok(d) => Ok(d),
        Err(e) => Err(AppError::Usage(join2(head.as_str(), e.as_str()))),
    }
}

/// The nanoseconds that a text comes to, or more than a duration can hold.
pub open spec fn said_nanos(s: Seq<char>) -> int {
    scanned(s).added().total
}

/// A letter of a unit.
pub open spec fn is_unit_char(c: char) -> bool {
    'a' <= c <= 'z' || 'A' <= c <= 'Z' || c == 'µ'
}

proof fn lemma_scanned_digits(a: Seq<char>, digits: Seq<char>)
    requires
        a.len() == 0 || is_unit_char(a[a.len() - 1]),
        digits.len() > 0,
        all_digits(digits),
    ensures
        scanned(a + digits) == (DurationScan {
            number: at_most_int(digits_value(digits) as int, FULL_NUMBER as int),
            total: scanned(a).added().total,
            full: scanned(a).added().full,
            ..DurationScan::start()
        }),
    decreases digits.len(),
{
    let s = a + digits;
    let front = digits.drop_last();
    assert(s.last() == digits.last());
    assert(s.drop_last() =~= a + front);
    assert(digits[digits.len() - 1] == digits.last());
    if front.len() == 0 {
        assert(a + front =~= a);
        assert(digits_value(front) == 0);
        if a.len() == 0 {
            assert(0 * unit_nanos(Seq::empty()) == 0) by (nonlinear_arith);
            assert(scanned(a).added() == DurationScan::start());
        } else {
            assert(a.last() == a[a.len() - 1]);
            assert(scanned(a).unit.len() > 0);
        }
    } else {
        assert forall|i: int| 0 <= i < front.len() implies '0' <= #[trigger] front[i] <= '9' by {
            assert(front[i] == digits[i]);
        }
        lemma_scanned_digits(a, front);
    }
}

proof fn lemma_scanned_unit(s: Seq<char>, unit: Seq<char>)
    requires
        scanned(s).unit.len() == 0,
        forall|i: int| 0 <= i < unit.len() ==> is_unit_char(#[trigger] unit[i]),
    ensures
        scanned(s + unit) == (DurationScan { unit, ..scanned(s) }),
    decreases unit.len(),
{
    if unit.len() == 0 {
        assert(s + unit =~= s);
        assert(scanned(s).unit =~= unit);
    } else {
        let front = unit.drop_last();
        assert((s + unit).last() == unit.last());
        assert((s + unit).drop_last() =~= s + front);
        assert(unit[unit.len() - 1] == unit.last());
        assert forall|i: int| 0 <= i < front.len() implies is_unit_char(#[trigger] front[i]) by {
            assert(front[i] == unit[i]);
        }
        lemma_scanned_unit(s, front);
        assert(front.push(unit.last()) =~= unit);
    }
}

/// A number and its unit add their product to what stands before them; a text
/// is overfull exactly where it comes to 2^64 seconds there or has done so
/// before.
pub proof fn law_durations_add_up(a: Seq<char>, digits: Seq<char>, unit: Seq<char>)
    requires
        a.len() == 0 || is_unit_char(a[a.len() - 1]),
        digits.len() > 0,
        all_digits(digits),
        digits_value(digits) <= u64::MAX,
        unit.len() > 0,
        forall|i: int| 0 <= i < unit.len() ==> is_unit_char(#[trigger] unit[i]),
    ensures
        ({
            let sum = said_nanos(a) + digits_value(digits) * unit_nanos(unit);
            &&& sum <= 18_446_744_073_709_551_616 * 1_000_000_000 ==> said_nanos(a + digits + unit)
                == sum
            &&& sum > 18_446_744_073_709_551_616 * 1_000_000_000 ==> said_nanos(a + digits + unit)
                > 18_446_744_073_709_551_616 * 1_000_000_000
            &&& is_overfull(a + digits + unit) <==> is_overfull(a) || sum
                == 18_446_744_073_709_551_616 * 1_000_000_000
        }),
        said_nanos(Seq::empty()) == 0,
        !is_overfull(Seq::empty()),
{
    lemma_scanned_digits(a, digits);
    lemma_scanned_unit(a + digits, unit);
    let nanos = unit_nanos(unit);
    assert(0 * nanos == 0) by (nonlinear_arith);
    assert(0 * unit_nanos(Seq::empty()) == 0) by (nonlinear_arith);
    assert(digits_value(digits) * nanos >= 0) by (nonlinear_arith)
        requires
            digits_value(digits) >= 0,
            nanos >= 0,
    ;
}

/// A minute is 60 seconds, an hour 60 minutes, a day 24 hours, a week 7 days, a
/// year 365.25 days and a month 30.44; a unit means the same however it is
/// written.
pub proof fn law_units_of_time()
    ensures
        unit_nanos("s"@) == 1_000_000_000,
        unit_nanos("s"@) == 1_000 * unit_nanos("ms"@),
        unit_nanos("ms"@) == 1_000 * unit_nanos("us"@),
        unit_nanos("us"@) == 1_000 * unit_nanos("ns"@),
        unit_nanos("m"@) == 60 * unit_nanos("s"@),
        unit_nanos("h"@) == 60 * unit_nanos("m"@),
        unit_nanos("d"@) == 24 * unit_nanos("h"@),
        unit_nanos("w"@) == 7 * unit_nanos("d"@),
        4 * unit_nanos("y"@) == 1_461 * unit_nanos("d"@),
        100 * unit_nanos("M"@) == 3_044 * unit_nanos("d"@),
        unit_nanos("nanos"@) == unit_nanos("ns"@) == unit_nanos("nsec"@),
        unit_nanos("usec"@) == unit_nanos("us"@) == unit_nanos("µs"@),
        unit_nanos("millis"@) == unit_nanos("ms"@) == unit_nanos("msec"@),
        unit_nanos("seconds"@) == unit_nanos("s"@) == unit_nanos("second"@) == unit_nanos("secs"@)
            == unit_nanos("sec"@),
        unit_nanos("minutes"@) == unit_nanos("m"@) == unit_nanos("minute"@) == unit_nanos("min"@)
            == unit_nanos("mins"@),
        unit_nanos("hours"@) == unit_nanos("h"@) == unit_nanos("hour"@) == unit_nanos("hr"@)
            == unit_nanos("hrs"@),
        unit_nanos("days"@) == unit_nanos("d"@) == unit_nanos("day"@),
        unit_nanos("weeks"@) == unit_nanos("w"@) == unit_nanos("week"@) == unit_nanos("wk"@)
            == unit_nanos("wks"@),
        unit_nanos("months"@) == unit_nanos("M"@) == unit_nanos("month"@),
        unit_nanos("years"@) == unit_nanos("y"@) == unit_nanos("year"@) == unit_nanos("yr"@)
            == unit_nanos("yrs"@),
{
    reveal_strlit("nanos");
    reveal_strlit("nsec");
    reveal_strlit("ns");
    reveal_strlit("usec");
    reveal_strlit("us");
    reveal_strlit("µs");
    reveal_strlit("millis");
    reveal_strlit("msec");
    reveal_strlit("ms");
    reveal_strlit("seconds");
    reveal_strlit("second");
    reveal_strlit("secs");
    reveal_strlit("sec");
    reveal_strlit("s");
    reveal_strlit("minutes");
    reveal_strlit("minute");
    reveal_strlit("min");
    reveal_strlit("mins");
    reveal_strlit("m");
    reveal_strlit("hours");
    reveal_strlit("hour");
    reveal_strlit("hr");
    reveal_strlit("hrs");
    reveal_strlit("h");
    reveal_strlit("days");
    reveal_strlit("day");
    reveal_strlit("d");
    reveal_strlit("weeks");
    reveal_strlit("week");
    reveal_strlit("wk");
    reveal_strlit("wks");
    reveal_strlit("w");
    reveal_strlit("months");
    reveal_strlit("month");
    reveal_strlit("M");
    reveal_strlit("years");
    reveal_strlit("year");
    reveal_strlit("yr");
    reveal_strlit("yrs");
    reveal_strlit("y");
    assert("nanos"@.len() == 5 && "nanos"@[0] == 'n' && "nanos"@[1] == 'a');
    assert("nsec"@.len() == 4 && "nsec"@[0] == 'n' && "nsec"@[1] == 's');
    assert("ns"@.len() == 2 && "ns"@[0] == 'n' && "ns"@[1] == 's');
    assert("usec"@.len() == 4 && "usec"@[0] == 'u' && "usec"@[1] == 's');
    assert("us"@.len() == 2 && "us"@[0] == 'u' && "us"@[1] == 's');
    assert("µs"@.len() == 2 && "µs"@[0] == 'µ' && "µs"@[1] == 's');
    assert("millis"@.len() == 6 && "millis"@[0] == 'm' && "millis"@[1] == 'i');
    assert("millis"@[2] == 'l');
    assert("msec"@.len() == 4 && "msec"@[0] == 'm' && "msec"@[1] == 's');
    assert("ms"@.len() == 2 && "ms"@[0] == 'm' && "ms"@[1] == 's');
    assert("seconds"@.len() == 7 && "seconds"@[0] == 's' && "seconds"@[1] == 'e');
    assert("second"@.len() == 6 && "second"@[0] == 's' && "second"@[1] == 'e');
    assert("second"@[2] == 'c');
    assert("secs"@.len() == 4 && "secs"@[0] == 's' && "secs"@[1] == 'e');
    assert("sec"@.len() == 3 && "sec"@[0] == 's' && "sec"@[1] == 'e');
    assert("s"@.len() == 1 && "s"@[0] == 's');
    assert("minutes"@.len() == 7 && "minutes"@[0] == 'm' && "minutes"@[1] == 'i');
    assert("minute"@.len() == 6 && "minute"@[0] == 'm' && "minute"@[1] == 'i');
    assert("minute"@[2] == 'n');
    assert("min"@.len() == 3 && "min"@[0] == 'm' && "min"@[1] == 'i');
    assert("mins"@.len() == 4 && "mins"@[0] == 'm' && "mins"@[1] == 'i');
    assert("m"@.len() == 1 && "m"@[0] == 'm');
    assert("hours"@.len() == 5 && "hours"@[0] == 'h' && "hours"@[1] == 'o');
    assert("hour"@.len() == 4 && "hour"@[0] == 'h' && "hour"@[1] == 'o');
    assert("hr"@.len() == 2 && "hr"@[0] == 'h' && "hr"@[1] == 'r');
    assert("hrs"@.len() == 3 && "hrs"@[0] == 'h' && "hrs"@[1] == 'r');
    assert("h"@.len() == 1 && "h"@[0] == 'h');
    assert("days"@.len() == 4 && "days"@[0] == 'd' && "days"@[1] == 'a');
    assert("day"@.len() == 3 && "day"@[0] == 'd' && "day"@[1] == 'a');
    assert("d"@.len() == 1 && "d"@[0] == 'd');
    assert("weeks"@.len() == 5 && "weeks"@[0] == 'w' && "weeks"@[1] == 'e');
    assert("week"@.len() == 4 && "week"@[0] == 'w' && "week"@[1] == 'e');
    assert("wk"@.len() == 2 && "wk"@[0] == 'w' && "wk"@[1] == 'k');
    assert("wks"@.len() == 3 && "wks"@[0] == 'w' && "wks"@[1] == 'k');
    assert("w"@.len() == 1 && "w"@[0] == 'w');
    assert("months"@.len() == 6 && "months"@[0] == 'm' && "months"@[1] == 'o');
    assert("months"@[2] == 'n');
    assert("month"@.len() == 5 && "month"@[0] == 'm' && "month"@[1] == 'o');
    assert("M"@.len() == 1 && "M"@[0] == 'M');
    assert("years"@.len() == 5 && "years"@[0] == 'y' && "years"@[1] == 'e');
    assert("year"@.len() == 4 && "year"@[0] == 'y' && "year"@[1] == 'e');
    assert("yr"@.len() == 2 && "yr"@[0] == 'y' && "yr"@[1] == 'r');
    assert("yrs"@.len() == 3 && "yrs"@[0] == 'y' && "yrs"@[1] == 'r');
    assert("y"@.len() == 1 && "y"@[0] == 'y');
}

// ---------------------------------------------------------------------------
// add
// ---------------------------------------------------------------------------

/// The request that adds an item.
pub fn add_request(formats: Vec<(String, Vec<u8>)>) -> (r: Request)
    ensures
        r == Request::AddItem((AddItemParams { formats })),
{
    Request::AddItem(AddItemParams { formats })
}

/// The id that a response tells of, or nothing.
pub open spec fn told_id(resp: Response) -> Seq<char> {
    match resp.data {
        Some(Payload::Id(id)) => hyphenated_text(id.bits),
        _ => Seq::empty(),
    }
}

/// The id to print for an item that the daemon added; empty where the response
/// names none.
pub fn added_id(resp: &Response) -> (r: String)
    ensures
        r@ == told_id(*resp),
{
    match &resp.data {
        Some(Payload::Id(id)) => id.to_text(),
        _ => String::new(),
    }
}

// ---------------------------------------------------------------------------
// update
// ---------------------------------------------------------------------------

/// What an update asks for.
#[derive(Debug)]
pub struct UpdatePlan {
    pub id: ItemId,
    pub sources: Vec<MimeSrc>,
    pub remove_mimes: Vec<String>,
}

/// What the arguments of an update stand for.
pub open spec fn is_update_plan(
    id: Seq<char>,
    set_mime: Seq<Seq<char>>,
    remove_mime: Seq<String>,
    r: std::result::Result<UpdatePlan, AppError>,
) -> bool {
    if set_mime.len() == 0 && remove_mime.len() == 0 {
        r matches Err(e) && e.is_usage(
            "update requires at least one of --set-mime or --remove-mime"@,
        )
    } else {
        match parsed_uuid(id) {
            Err(_) => r matches Err(e) && e.is_usage("invalid id: "@ + quoted_text(id)),
            Ok(bits) => match parsed_srcs(set_mime) {
                Err(text) => r matches Err(e) && e.is_usage(text),
                Ok(srcs) => r matches Ok(plan) && plan.id.bits == bits && src_views(plan.sources@)
                    == srcs && plan.remove_mimes@ == remove_mime,
            },
        }
    }
}

/// An update is planned exactly where there is something to set or to remove,
/// the id is one, and every value is one; it removes what was named, and sets
/// from as many sources as were named.
pub proof fn law_update_arguments(
    id: Seq<char>,
    set_mime: Seq<Seq<char>>,
    remove_mime: Seq<String>,
    r: std::result::Result<UpdatePlan, AppError>,
)
    requires
        is_update_plan(id, set_mime, remove_mime, r),
    ensures
        r is Ok <==> (set_mime.len() > 0 || remove_mime.len() > 0) && parsed_uuid(id) is Ok
            && parsed_srcs(set_mime) is Ok,
        r matches Ok(plan) ==> {
            &&& parsed_uuid(id) == Ok::<u128, Seq<char>>(plan.id.bits)
            &&& plan.remove_mimes@ == remove_mime
            &&& plan.sources@.len() == set_mime.len()
            &&& forall|i: int|
                0 <= i < set_mime.len() ==> parsed_src(#[trigger] set_mime[i]) == Ok::<
                    SrcView,
                    Seq<char>,
                >(plan.sources@[i]@)
        },
        r matches Err(e) ==> e.exit() == 1,
{
    law_set_mime_lists(set_mime);
    match r {
        Ok(plan) => {
            let views = src_views(plan.sources@);
            assert forall|i: int| 0 <= i < set_mime.len() implies parsed_src(#[trigger] set_mime[i])
                == Ok::<SrcView, Seq<char>>(plan.sources@[i]@) by {
                assert(views[i] == plan.sources@[i]@);
            }
            assert(views.len() == plan.sources@.len());
        },
        Err(_) => {},
    }
}

/// Read the arguments of an update: at least one flag, then the id, then the
/// sources.
pub fn plan_update(id: &str, set_mime: &Vec<String>, remove_mime: &Vec<String>) -> (r:
    std::result::Result<UpdatePlan, AppError>)
    ensures
        is_update_plan(id@, texts(set_mime@), remove_mime@, r),
{
    if set_mime.len() == 0 && remove_mime.len() == 0 {
        return Err(
            AppError::Usage(
                "update requires at least one of --set-mime or --remove-mime".to_owned(),
            ),
        );
    }
    let id = match parse_uuid(id) {
        Ok(id) => id,
        Err(e) => {
            return Err(e);
        },
    };
    match parse_set_mime(set_mime.as_slice()) {
        Ok(sources) => Ok(UpdatePlan { id, sources, remove_mimes: clone_texts(remove_mime) }),
        Err(e) => Err(e),
    }
}

/// The request that updates an item.
pub fn update_request(
    id: ItemId,
    set_formats: Vec<(String, Vec<u8>)>,
    remove_mimes: Vec<String>,
) -> (r: Request)
    ensures
        r == Request::UpdateItem((UpdateItemParams { id, set_formats, remove_mimes })),
{
    Request::UpdateItem(UpdateItemParams { id, set_formats, remove_mimes })
}

/// The outcome of an update of the store.
pub open spec fn is_update_result(
    before: StoreState,
    after: StoreState,
    id: ItemId,
    removes: Seq<Seq<char>>,
    sets: Seq<(Seq<char>, Seq<u8>)>,
    r: std::result::Result<(), AppError>,
) -> bool {
    if before.can_update(id, removes, sets) {
        &&& r is Ok
        &&& exists|now: Timestamp| #[trigger]
            now.wf() && after == before.updated(id, now, removes, sets)
    } else {
        &&& r == Err::<(), AppError>(AppError::Lib(Error::NotFound))
        &&& after == before
    }
}

/// Update an item in the store, where no daemon is running.
pub fn run_update(
    store: &mut Store,
    id: ItemId,
    set_formats: &Vec<(String, Vec<u8>)>,
    remove_mimes: &Vec<String>,
) -> (r: std::result::Result<(), AppError>)
    requires
        old(store).wf(),
    ensures
        final(store).wf(),
        final(store).base_state() == old(store).base_state(),
        is_update_result(
            old(store)@,
            final(store)@,
            id,
            texts(remove_mimes@),
            inputs(set_formats@),
            r,
        ),
        forall|dir: Map<Seq<char>, Seq<u8>>|
            is_update_result(
                old(store).on(dir),
                #[trigger] final(store).on(dir),
                id,
                texts(remove_mimes@),
                inputs(set_formats@),
                r,
            ),
{
    match store.update_item(id, remove_mimes.as_slice(), set_formats.as_slice()) {
        Ok(_) => Ok(()),
        Err(e) => Err(AppError::Lib(e)),
    }
}

// ---------------------------------------------------------------------------
// delete
// ---------------------------------------------------------------------------

/// What a deletion asks for.
#[derive(Debug)]
pub enum DeletePlan {
    /// All items older than this many seconds and nanoseconds.
    OlderThan { secs: u64, nanos: u32 },
    /// One format of an item.
    Format { id: ItemId, mime: String },
    /// A whole item.
    Item { id: ItemId },
}

/// What the arguments of a deletion stand for.
pub open spec fn is_delete_plan(
    id: Option<String>,
    mime: Option<String>,
    older_than: Option<String>,
    r: std::result::Result<DeletePlan, AppError>,
) -> bool {
    match (id, older_than) {
        (Some(_), Some(_)) => r matches Err(e) && e.is_usage(
            "cannot use both <id> and --older-than"@,
        ),
        (None, None) => r matches Err(e) && e.is_usage(
            "must specify either <id> or --older-than"@,
        ),
        (None, Some(dur)) => if mime is Some {
            r matches Err(e) && e.is_usage("--mime requires an item <id>"@)
        } else {
            match duration_outcome(dur@) {
                Ok(d) => r matches Ok(DeletePlan::OlderThan { secs, nanos }) && secs == d.0
                    && nanos == d.1,
                Err(text) => r matches Err(e) && e.is_usage(text),
            }
        },
        (Some(text), None) => match parsed_uuid(text@) {
            Err(_) => r matches Err(e) && e.is_usage("invalid id: "@ + quoted_text(text@)),
            Ok(bits) => match mime {
                Some(m) => r matches Ok(DeletePlan::Format { id: i, mime: n }) && i.bits == bits
                    && n@ == m@,
                None => r matches Ok(DeletePlan::Item { id: i }) && i.bits == bits,
            },
        },
    }
}

/// Validate the arguments of a deletion.
pub fn plan_delete(
    id: &Option<String>,
    mime: &Option<String>,
    older_than: &Option<String>,
) -> (r: std::result::Result<DeletePlan, AppError>)
    ensures
        is_delete_plan(*id, *mime, *older_than, r),
{
    match (id, older_than) {
        (Some(_), Some(_)) => Err(
            AppError::Usage("cannot use both <id> and --older-than".to_owned()),
        ),
        (None, None) => Err(
            AppError::Usage("must specify either <id> or --older-than".to_owned()),
        ),
        (None, Some(dur)) => {
            if mime.is_some() {
                return Err(AppError::Usage("--mime requires an item <id>".to_owned()));
            }
            match parse_older_than(dur.as_str()) {
                Ok((secs, nanos)) => Ok(DeletePlan::OlderThan { secs, nanos }),
                Err(e) => Err(e),
            }
        },
        (Some(text), None) => {
            let id = match parse_uuid(text.as_str()) {
                Ok(id) => id,
                Err(e) => {
                    return Err(e);
                },
            };
            match mime {
                Some(m) => Ok(DeletePlan::Format { id, mime: m.clone() }),
                None => Ok(DeletePlan::Item { id }),
            }
        },
    }
}

/// The instant before which items are deleted at the instant `now`.
pub open spec fn cutoff_of(now: Timestamp, secs: u64, nanos: u32) -> Timestamp {
    now.less(secs * 1_000_000_000 + nanos)
}

/// The request that carries out a deletion at the instant `now`, where the
/// daemon does so.
pub fn delete_request(plan: &DeletePlan, now: Timestamp) -> (r: Request)
    requires
        now.wf(),
    ensures
        r.wf(),
        match plan {
            DeletePlan::OlderThan { secs, nanos } => r == (Request::DeleteOlderThan {
                cutoff: cutoff_of(now, *secs, *nanos),
            }),
            DeletePlan::Format { id, mime } => r matches Request::UpdateItem(p) && p.id == id
                && p.set_formats@.len() == 0 && texts(p.remove_mimes@) == seq![mime@],
            DeletePlan::Item { id } => r == (Request::DeleteItem { id: *id }),
        },
{
    match plan {
        DeletePlan::OlderThan { secs, nanos } => Request::DeleteOlderThan {
            cutoff: now.earlier_by(*secs, *nanos),
        },
        DeletePlan::Format { id, mime } => {
            let mut remove_mimes: Vec<String> = Vec::new();
            remove_mimes.push(mime.clone());
            assert(texts(remove_mimes@) =~= seq![mime@]);
            update_request(*id, Vec::new(), remove_mimes)
        },
        DeletePlan::Item { id } => Request::DeleteItem { id: *id },
    }
}

/// What a deletion did.
#[derive(Debug)]
pub enum Deleted {
    /// Old items, this many.
    Items(u64),
    /// What was named.
    Named,
}

/// What a response says that a deletion did.
pub fn deleted_by(resp: &Response) -> (r: Deleted)
    ensures
        match resp.data {
            Some(Payload::Deleted(n)) => r == Deleted::Items(n),
            _ => r == Deleted::Named,
        },
{
    match &resp.data {
        Some(Payload::Deleted(n)) => Deleted::Items(*n),
        _ => Deleted::Named,
    }
}

/// The outcome of a deletion from the store at the instant `now`.
pub open spec fn is_delete_result(
    before: StoreState,
    after: StoreState,
    plan: DeletePlan,
    now: Timestamp,
    r: std::result::Result<Deleted, AppError>,
) -> bool {
    match plan {
        DeletePlan::OlderThan { secs, nanos } => {
            let cutoff_ms = cutoff_of(now, secs, nanos).ms() as i64;
            &&& after == before.older_deleted(cutoff_ms)
            &&& r matches Ok(Deleted::Items(n)) && n == crate::store::laws::old_items(
                before.db,
                cutoff_ms,
            ).len()
        },
        DeletePlan::Format { id, mime } => {
            let text = hyphenated_text(id.bits);
            if before.db.items.contains_key(text) && before.db.formats.contains_key(
                (text, mime@),
            ) {
                &&& after == before.format_removed(id, now, mime@)
                &&& r matches Ok(Deleted::Named)
            } else {
                &&& after == before
                &&& r matches Err(AppError::Lib(Error::NotFound))
            }
        },
        DeletePlan::Item { id } => {
            if before.db.items.contains_key(hyphenated_text(id.bits)) {
                &&& after == before.item_deleted(id)
                &&& r matches Ok(Deleted::Named)
            } else {
                &&& after == before
                &&& r matches Err(AppError::Lib(Error::NotFound))
            }
        },
    }
}

/// A deletion keeps the tables and the blob files sound, whatever was read of
/// the files.
pub proof fn law_deletions_keep_the_files_sound(
    before: Store,
    after: Store,
    plan: DeletePlan,
    now: Timestamp,
    r: std::result::Result<Deleted, AppError>,
    dir: Map<Seq<char>, Seq<u8>>,
)
    requires
        is_sound(before.on(dir)),
        is_delete_result(before.on(dir), after.on(dir), plan, now, r),
    ensures
        is_sound(after.on(dir)),
        no_orphans(before.on(dir)) ==> no_orphans(after.on(dir)),
{
    match plan {
        DeletePlan::OlderThan { secs, nanos } => {
            law_older_deleted_is_sound(
                before.on(dir),
                cutoff_of(now, secs, nanos).ms() as i64,
            );
        },
        DeletePlan::Format { id, mime } => {
            let text = hyphenated_text(id.bits);
            if before.on(dir).db.items.contains_key(text) && before.on(
                dir,
            ).db.formats.contains_key((text, mime@)) {
                law_format_removed_is_sound(before.on(dir), id, now, mime@);
            }
        },
        DeletePlan::Item { id } => {
            law_item_deleted_is_sound(before.on(dir), id);
        },
    }
}

/// A deletion names an item, with or without one of its types, or an age, and
/// never both; the plan is for what was named.
pub proof fn law_delete_arguments(
    id: Option<String>,
    mime: Option<String>,
    older_than: Option<String>,
    r: std::result::Result<DeletePlan, AppError>,
)
    requires
        is_delete_plan(id, mime, older_than, r),
    ensures
        r is Ok ==> (id is Some) != (older_than is Some),
        r is Ok && mime is Some ==> id is Some,
        r matches Ok(plan) ==> {
            &&& plan is OlderThan <==> older_than is Some
            &&& plan is Format <==> mime is Some
            &&& plan matches DeletePlan::Format { mime: m, .. } ==> m@ == mime->0@
            &&& plan matches DeletePlan::Format { id: i, .. } ==> parsed_uuid(id->0@) == Ok::<
                u128,
                Seq<char>,
            >(i.bits)
            &&& plan matches DeletePlan::Item { id: i } ==> parsed_uuid(id->0@) == Ok::<
                u128,
                Seq<char>,
            >(i.bits)
            &&& plan matches DeletePlan::OlderThan { secs, nanos } ==> parsed_duration(
                older_than->0@,
            ) == Ok::<(u64, u32), Seq<char>>((secs, nanos))
        },
        r matches Err(e) ==> e.exit() == 1,
        older_than is Some && id is None && mime is None && !is_overfull(older_than->0@)
            && parsed_duration(older_than->0@) is Ok ==> r is Ok,
        id is Some && older_than is None && parsed_uuid(id->0@) is Ok ==> r is Ok,
{
}

/// The cutoff of an age lies that much before `now`, or at the first instant
/// that a date can express where that is later.
pub proof fn law_cutoff(now: Timestamp, secs: u64, nanos: u32)
    requires
        now.wf(),
    ensures
        ({
            let age = secs * 1_000_000_000 + nanos;
            &&& now.nanos - age >= crate::clock::MIN_NANOS ==> cutoff_of(now, secs, nanos).nanos
                == now.nanos - age
            &&& now.nanos - age < crate::clock::MIN_NANOS ==> cutoff_of(now, secs, nanos).nanos
                == crate::clock::MIN_NANOS
        }),
{
}

/// Deleting one format of an item takes that format and nothing else: the item
/// stays, and so does every other format. Where there is no such format, it is
/// reported as not found and nothing changes.
pub proof fn law_format_deletion(
    before: StoreState,
    after: StoreState,
    id: ItemId,
    mime: String,
    now: Timestamp,
    r: std::result::Result<Deleted, AppError>,
    other: ItemId,
    other_mime: Seq<char>,
)
    requires
        is_sound(before),
        is_delete_result(before, after, (DeletePlan::Format { id, mime }), now, r),
    ensures
        r is Ok <==> before.db.formats.contains_key((hyphenated_text(id.bits), mime@)),
        r is Ok ==> after.content(id, mime@) is None && !after.db.formats.contains_key(
            (hyphenated_text(id.bits), mime@),
        ),
        other != id || other_mime != mime@ ==> after.content(other, other_mime) == before.content(
            other,
            other_mime,
        ),
        after.db.items.contains_key(hyphenated_text(other.bits)) <==> before.db.items.contains_key(
            hyphenated_text(other.bits),
        ),
        r matches Err(e) ==> e.exit() == 2 && after == before,
{
    let key = (hyphenated_text(id.bits), mime@);
    if before.db.formats.contains_key(key) {
        assert(before.db.items.contains_key(key.0));
        crate::store::laws::law_removed_is_gone(before, id, now, mime@, other, other_mime);
    }
}

/// Deleting an item takes it with all its formats, and no other item. Where there
/// is no such item, it is reported as not found and nothing changes.
pub proof fn law_item_deletion(
    before: StoreState,
    after: StoreState,
    id: ItemId,
    now: Timestamp,
    r: std::result::Result<Deleted, AppError>,
    other: ItemId,
    mime: Seq<char>,
)
    requires
        is_sound(before),
        is_delete_result(before, after, (DeletePlan::Item { id }), now, r),
    ensures
        r is Ok <==> before.db.items.contains_key(hyphenated_text(id.bits)),
        !after.db.items.contains_key(hyphenated_text(id.bits)),
        after.content(id, mime) is None,
        other != id ==> after.content(other, mime) == before.content(other, mime) && (
        after.db.items.contains_key(hyphenated_text(other.bits)) <==> before.db.items.contains_key(
            hyphenated_text(other.bits),
        )),
        r matches Err(e) ==> e.exit() == 2 && after == before,
{
    if before.db.items.contains_key(hyphenated_text(id.bits)) {
        crate::store::laws::law_deleted_is_gone(before, id, other, mime);
    } else if before.db.formats.contains_key((hyphenated_text(id.bits), mime)) {
        assert(before.db.items.contains_key(hyphenated_text(id.bits)));
    }
}

/// A deletion by age keeps every item that is not older than the age at `now`,
/// and deletes every item that is older by a millisecond or more. Left out is an
/// age that reaches back beyond all dates.
pub proof fn law_deletion_by_age(
    before: StoreState,
    after: StoreState,
    secs: u64,
    nanos: u32,
    now: Timestamp,
    r: std::result::Result<Deleted, AppError>,
    id: ItemId,
    mime: Seq<char>,
)
    requires
        is_sound(before),
        now.wf(),
        now.nanos - (secs * 1_000_000_000 + nanos) >= crate::clock::MIN_NANOS,
        is_delete_result(before, after, (DeletePlan::OlderThan { secs, nanos }), now, r),
        before.db.items.contains_key(hyphenated_text(id.bits)),
    ensures
        ({
            let text = hyphenated_text(id.bits);
            let age = now.nanos - before.db.items[text].created_at * 1_000_000;
            &&& age <= secs * 1_000_000_000 + nanos ==> after.db.items.contains_key(text)
                && after.db.items[text] == before.db.items[text] && after.content(id, mime)
                == before.content(id, mime)
            &&& age >= secs * 1_000_000_000 + nanos + 1_000_000
                ==> !after.db.items.contains_key(text) && after.content(id, mime) is None
        }),
        r is Ok,
{
    let cutoff = cutoff_of(now, secs, nanos);
    crate::clock::lemma_ms_fits(cutoff);
    crate::store::laws::law_only_older_items_go(before, cutoff.ms() as i64, id, mime);
}

/// Carry out a deletion on the store at the instant `now`, where no daemon is
/// running.
pub fn run_delete(store: &mut Store, plan: &DeletePlan, now: Timestamp) -> (r:
    std::result::Result<Deleted, AppError>)
    requires
        old(store).wf(),
        now.wf(),
    ensures
        final(store).wf(),
        final(store).base_state() == old(store).base_state(),
        is_delete_result(old(store)@, final(store)@, *plan, now, r),
        forall|dir: Map<Seq<char>, Seq<u8>>|
            is_delete_result(old(store).on(dir), #[trigger] final(store).on(dir), *plan, now, r),
{
    match plan {
        DeletePlan::OlderThan { secs, nanos } => {
            let cutoff = now.earlier_by(*secs, *nanos);
            Ok(Deleted::Items(store.delete_older_than(cutoff)))
        },
        DeletePlan::Format { id, mime } => match store.remove_format_at(*id, now, mime.as_str()) {
            Ok(_) => Ok(Deleted::Named),
            Err(e) => Err(AppError::Lib(e)),
        },
        DeletePlan::Item { id } => match store.delete_item(*id) {
            Ok(_) => Ok(Deleted::Named),
            Err(e) => Err(AppError::Lib(e)),
        },
    }
}

/// The line that tells a person of a deletion, if there is one.
pub fn deleted_line(deleted: &Deleted) -> (r: Option<String>)
    ensures
        match deleted {
            Deleted::Items(n) => r matches Some(line) && line@ == "deleted "@ + decimal(*n as nat)
                + " items"@,
            Deleted::Named => r is None,
        },
{
    match deleted {
        Deleted::Items(n) => {
            let count = decimal_text(*n);
            Some(join3("deleted ", count.as_str(), " items"))
        },
        Deleted::Named => None,
    }
}

// ---------------------------------------------------------------------------
// list
// ---------------------------------------------------------------------------

#[derive(Debug)]
pub struct ListFormatEntry {
    pub mime: String,
    pub size: u64,
}

/// What a listing shows of an item.
#[derive(Debug)]
pub struct ListItemEntry {
    pub id: ItemId,
    pub created_at: Timestamp,
    pub label: Option<String>,
    pub thumbnail: Option<String>,
    pub formats: Vec<ListFormatEntry>,
}

/// MIME types and sizes, in order.
pub open spec fn list_formats_of(formats: Seq<FormatView>) -> Seq<(Seq<char>, u64)> {
    formats.map_values(|f: FormatView| (f.mime, f.size))
}

/// What entries show, in order.
pub open spec fn shown_formats(list: Seq<ListFormatEntry>) -> Seq<(Seq<char>, u64)> {
    list.map_values(|f: ListFormatEntry| (f.mime@, f.size))
}

/// The thumbnail that a listing reports: its path, where there is a cache
/// directory and the file exists.
pub open spec fn reported_thumbnail(
    cache_dir: Option<&str>,
    id: ItemId,
    exists_on_disk: bool,
) -> Option<Seq<char>> {
    match cache_dir {
        Some(dir) => if exists_on_disk {
            Some(thumb_path_of(dir@, id))
        } else {
            None
        },
        None => None,
    }
}

/// The thumbnail that a listing reports.
pub fn thumbnail_field(cache_dir: Option<&str>, id: ItemId, exists_on_disk: bool) -> (r: Option<
    String,
>)
    ensures
        text_of(r) == reported_thumbnail(cache_dir, id, exists_on_disk),
{
    match cache_dir {
        Some(dir) => if exists_on_disk {
            Some(thumb_path(dir, id))
        } else {
            None
        },
        None => None,
    }
}

/// The listing shows the item: its identity, when it was created, its label,
/// its formats, and this thumbnail.
pub open spec fn shows_item(
    r: ListItemEntry,
    s: StoreState,
    entry: ItemWithFormats,
    thumbnail: Option<Seq<char>>,
) -> bool {
    &&& r.id == entry.item.id
    &&& r.created_at == entry.item.created_at
    &&& text_of(r.label) == item_label(s, entry.item.id)
    &&& text_of(r.thumbnail) == thumbnail
    &&& shown_formats(r.formats@) == list_formats_of(format_views(entry.formats@))
}

/// What a listing shows of an item.
pub fn list_entry(store: &Store, entry: &ItemWithFormats, thumbnail: Option<String>) -> (r:
    ListItemEntry)
    requires
        store.wf(),
    ensures
        shows_item(r, store@, *entry, text_of(thumbnail)),
{
    let label = derive_label(store, entry.item.id);
    let mut formats: Vec<ListFormatEntry> = Vec::new();
    let mut i: usize = 0;
    while i < entry.formats.len()
        invariant
            i <= entry.formats@.len(),
            formats@.len() == i,
            forall|j: int|
                0 <= j < i ==> (#[trigger] formats@[j]).mime@ == entry.formats@[j].mime@
                    && formats@[j].size == entry.formats@[j].size,
        decreases entry.formats@.len() - i,
    {
        formats.push(
            ListFormatEntry { mime: entry.formats[i].mime.clone(), size: entry.formats[i].size },
        );
        i += 1;
    }
    assert(shown_formats(formats@) =~= list_formats_of(format_views(entry.formats@)));
    ListItemEntry {
        id: entry.item.id,
        created_at: entry.item.created_at,
        label,
        thumbnail,
        formats,
    }
}

/// What a listing shows of items: `on_disk` says of each whether the file of
/// its thumbnail exists.
pub fn list_entries(
    store: &Store,
    items: &Vec<ItemWithFormats>,
    cache_dir: Option<&str>,
    on_disk: &Vec<bool>,
) -> (r: Vec<ListItemEntry>)
    requires
        store.wf(),
        on_disk@.len() == items@.len(),
    ensures
        r@.len() == items@.len(),
        forall|i: int|
            0 <= i < r@.len() ==> shows_item(
                #[trigger] r@[i],
                store@,
                items@[i],
                reported_thumbnail(cache_dir, items@[i].item.id, on_disk@[i]),
            ),
{
    let mut out: Vec<ListItemEntry> = Vec::new();
    let mut i: usize = 0;
    while i < items.len()
        invariant
            store.wf(),
            on_disk@.len() == items@.len(),
            i <= items@.len(),
            out@.len() == i,
            forall|j: int|
                0 <= j < i ==> shows_item(
                    #[trigger] out@[j],
                    store@,
                    items@[j],
                    reported_thumbnail(cache_dir, items@[j].item.id, on_disk@[j]),
                ),
        decreases items@.len() - i,
    {
        let thumbnail = thumbnail_field(cache_dir, items[i].item.id, on_disk[i]);
        out.push(list_entry(store, &items[i], thumbnail));
        i += 1;
    }
    out
}

/// The MIME types of formats, in order.
pub open spec fn format_mimes(formats: Seq<FormatView>) -> Seq<Seq<char>> {
    formats.map_values(|f: FormatView| f.mime)
}

fn mimes_of_formats(formats: &Vec<Format>) -> (r: Vec<String>)
    ensures
        texts(r@) == format_mimes(format_views(formats@)),
{
    let mut out: Vec<String> = Vec::new();
    let mut i: usize = 0;
    while i < formats.len()
        invariant
            i <= formats@.len(),
            out@.len() == i,
            forall|j: int| 0 <= j < i ==> (#[trigger] out@[j])@ == formats@[j].mime@,
        decreases formats@.len() - i,
    {
        out.push(formats[i].mime.clone());
        i += 1;
    }
    assert(texts(out@) =~= format_mimes(format_views(formats@)));
    out
}

/// A line of a listing for a person: id, age, MIME types and label, with tabs
/// between them.
pub open spec fn listed_line(
    id: Seq<char>,
    age: Seq<char>,
    mimes: Seq<Seq<char>>,
    label: Option<Seq<char>>,
) -> Seq<char> {
    id + "\t"@ + age + "\t"@ + joined(mimes, ", "@) + "\t"@ + match label {
        Some(text) => text,
        None => Seq::empty(),
    }
}

/// The line of a listing that shows an item of the store to a person.
pub open spec fn line_for(s: StoreState, entry: ItemWithFormats, now: Timestamp) -> Seq<char> {
    let secs = now.seconds_since(entry.item.created_at) as u64;
    listed_line(
        hyphenated_text(entry.item.id.bits),
        ago(secs, human_duration(secs)),
        format_mimes(format_views(entry.formats@)),
        item_label(s, entry.item.id),
    )
}

/// The line of a listing that shows an item to a person.
pub fn list_line(store: &Store, entry: &ItemWithFormats, now: Timestamp) -> (r: String)
    requires
        store.wf(),
        now.wf(),
        entry.item.created_at.wf(),
    ensures
        r@ == line_for(store@, *entry, now),
{
    let label = match derive_label(store, entry.item.id) {
        Some(text) => text,
        None => String::new(),
    };
    let age = relative_time(now, entry.item.created_at);
    let mimes = mimes_of_formats(&entry.formats);
    let mimes_text = join_texts(mimes.as_slice(), ", ");
    let id = entry.item.id.to_text();
    let a = join3(id.as_str(), "\t", age.as_str());
    let b = join3(a.as_str(), "\t", mimes_text.as_str());
    join3(b.as_str(), "\t", label.as_str())
}

/// The lines that show items of the store, in order.
pub open spec fn lines_for(s: StoreState, list: Seq<ItemWithFormats>, now: Timestamp) -> Seq<
    Seq<char>,
> {
    list.map_values(|entry: ItemWithFormats| line_for(s, entry, now))
}

/// List items for a person, one line each: newest first, at most `limit` of
/// them, and with `mime_filter` only those that have a format of that type.
pub fn list_lines(
    store: &Store,
    limit: Option<usize>,
    mime_filter: Option<&str>,
    now: Timestamp,
) -> (r: std::result::Result<Vec<String>, AppError>)
    requires
        store.wf(),
        now.wf(),
    ensures
        match r {
            Ok(lines) => exists|list: Vec<ItemWithFormats>| #[trigger]
                is_list_result(store@.db, limit_of(limit), mime_of(mime_filter), Ok(list))
                    && texts(lines@) == lines_for(store@, list@, now),
            Err(e) => e matches AppError::Lib(error) && is_list_result(
                store@.db,
                limit_of(limit),
                mime_of(mime_filter),
                Err(error),
            ),
        },
        r is Ok && limit is Some ==> r->Ok_0@.len() <= limit->0,
{
    let items = match store.list_items(limit, mime_filter) {
        Ok(items) => items,
        Err(e) => {
            return Err(AppError::Lib(e));
        },
    };
    let ghost db = store@.db;
    let ghost ids = listed_ids(db, limit_of(limit), mime_of(mime_filter));
    let mut lines: Vec<String> = Vec::new();
    let mut i: usize = 0;
    while i < items.len()
        invariant
            store.wf(),
            now.wf(),
            db == store@.db,
            i <= items@.len(),
            items@.len() == ids.len(),
            forall|j: int|
                0 <= j < ids.len() ==> is_listable(db, #[trigger] ids[j]) && is_entry(
                    db,
                    ids[j],
                    items@[j],
                ),
            lines@.len() == i,
            forall|j: int|
                0 <= j < i ==> (#[trigger] lines@[j])@ == line_for(store@, items@[j], now),
        decreases items@.len() - i,
    {
        assert(is_entry(db, ids[i as int], items@[i as int]));
        lines.push(list_line(store, &items[i], now));
        i += 1;
    }
    assert(texts(lines@) =~= lines_for(store@, items@, now));
    Ok(lines)
}

/// The line of an item is its id up to the first tab, then its age, its types
/// and its label, each behind a tab.
pub proof fn law_listed_line(s: StoreState, entry: ItemWithFormats, now: Timestamp, i: int)
    requires
        0 <= i < entry.formats@.len(),
    ensures
        before(line_for(s, entry, now), '\t') == hyphenated_text(entry.item.id.bits),
        item_label(s, entry.item.id) matches Some(label) ==> (seq!['\t'] + label).is_suffix_of(
            line_for(s, entry, now),
        ),
        item_label(s, entry.item.id) is None ==> line_for(s, entry, now).last() == '\t',
        crate::text::has_substring(line_for(s, entry, now), entry.formats@[i].mime@),
        ({
            let secs = now.seconds_since(entry.item.created_at) as u64;
            let head = hyphenated_text(entry.item.id.bits) + seq!['\t'] + ago(
                secs,
                human_duration(secs),
            ) + seq!['\t'];
            head.is_prefix_of(line_for(s, entry, now))
        }),
{
    reveal_strlit("\t");
    assert("\t"@ =~= seq!['\t']);
    let line = line_for(s, entry, now);
    let id = hyphenated_text(entry.item.id.bits);
    let secs = now.seconds_since(entry.item.created_at) as u64;
    let age = ago(secs, human_duration(secs));
    let mimes = format_mimes(format_views(entry.formats@));
    let label = match item_label(s, entry.item.id) {
        Some(text) => text,
        None => Seq::empty(),
    };
    let shown = joined(mimes, ", "@);
    assert(!id.contains('\t'));
    law_before_the_first(id, '\t', age + seq!['\t'] + shown + seq!['\t'] + label);
    assert(line =~= id + seq!['\t'] + (age + seq!['\t'] + shown + seq!['\t'] + label));
    let front = id + seq!['\t'] + age + seq!['\t'] + shown;
    let aged = id + seq!['\t'] + age + seq!['\t'];
    assert(aged =~= line.subrange(0, aged.len() as int));
    assert(line =~= front + (seq!['\t'] + label));
    assert((seq!['\t'] + label) =~= line.subrange(front.len() as int, line.len() as int));
    assert(mimes[i] == entry.formats@[i].mime@);
    let (a, b) = lemma_joined_holds(mimes, ", "@, i);
    let head = id + seq!['\t'] + age + seq!['\t'] + a;
    let tail = b + seq!['\t'] + label;
    assert(line =~= head + mimes[i] + tail);
    crate::text::law_substring_anywhere(head, mimes[i], tail);
}

proof fn lemma_joined_holds(list: Seq<Seq<char>>, sep: Seq<char>, i: int) -> (r: (
    Seq<char>,
    Seq<char>,
))
    requires
        0 <= i < list.len(),
    ensures
        joined(list, sep) == r.0 + list[i] + r.1,
    decreases list.len(),
{
    let none = Seq::<char>::empty();
    if list.len() == 1 {
        assert(joined(list, sep) =~= none + list[i] + none);
        (none, none)
    } else if i == list.len() - 1 {
        let front = joined(list.drop_last(), sep) + sep;
        assert(joined(list, sep) =~= front + list[i] + none);
        (front, none)
    } else {
        let (a, b) = lemma_joined_holds(list.drop_last(), sep, i);
        let back = b + sep + list.last();
        assert(joined(list, sep) =~= a + list[i] + back);
        (a, back)
    }
}

/// A listing shows each format of an item in its place, with its type and its
/// size, and the label that the item has.
pub proof fn law_listed_entry(
    r: ListItemEntry,
    s: StoreState,
    entry: ItemWithFormats,
    thumbnail: Option<Seq<char>>,
    i: int,
)
    requires
        shows_item(r, s, entry, thumbnail),
        0 <= i < entry.formats@.len(),
    ensures
        r.id == entry.item.id,
        r.created_at == entry.item.created_at,
        r.formats@.len() == entry.formats@.len(),
        r.formats@[i].mime@ == entry.formats@[i].mime@,
        r.formats@[i].size == entry.formats@[i].size,
        r.label is Some <==> item_label(s, entry.item.id) is Some,
        r.label matches Some(label) ==> item_label(s, entry.item.id) == Some(label@),
        r.thumbnail is Some <==> thumbnail is Some,
        r.thumbnail matches Some(path) ==> thumbnail == Some(path@),
{
    let shown = shown_formats(r.formats@);
    let listed = list_formats_of(format_views(entry.formats@));
    assert(shown.len() == listed.len());
    assert(shown[i] == (r.formats@[i].mime@, r.formats@[i].size));
    assert(listed[i] == (entry.formats@[i].mime@, entry.formats@[i].size));
}

/// A listing names the thumbnail of an item exactly where there is a cache
/// directory and the file exists, and then by the path at which thumbnails are
/// kept.
pub proof fn law_reported_thumbnail(cache_dir: Option<&str>, id: ItemId, exists_on_disk: bool)
    ensures
        reported_thumbnail(cache_dir, id, exists_on_disk) is Some <==> cache_dir is Some
            && exists_on_disk,
        reported_thumbnail(cache_dir, id, exists_on_disk) matches Some(path) ==> path
            == thumb_path_of(cache_dir->0@, id),
{
}

// ---------------------------------------------------------------------------
// formats
// ---------------------------------------------------------------------------

/// A MIME type in 40 columns, and a size to the right in 10.
pub open spec fn shown_format(mime: Seq<char>, size: u64) -> Seq<char> {
    mime + spaces(40 - mime.len()) + " "@ + (spaces(10 - decimal(size as nat).len()) + decimal(
        size as nat,
    ))
}

/// The line that shows a format: the MIME type in 40 columns, the size to the
/// right in 10.
pub fn format_line(f: &Format) -> (r: String)
    ensures
        r@ == f.mime@ + spaces(40 - f.mime@.len()) + " "@ + (spaces(
            10 - decimal(f.size as nat).len(),
        ) + decimal(f.size as nat)),
        r@ == shown_format(f.mime@, f.size),
{
    let left = pad_right(f.mime.as_str(), 40);
    let size = decimal_text(f.size);
    let right = pad_left(size.as_str(), 10);
    join3(left.as_str(), " ", right.as_str())
}

/// The line of a format begins with its type and ends with its size, with blanks
/// between them and at least one; a type of at most 40 characters and a size of
/// at most 10 digits make a line of 51.
pub proof fn law_format_line(mime: Seq<char>, size: u64, i: int)
    ensures
        mime.is_prefix_of(shown_format(mime, size)),
        decimal(size as nat).is_suffix_of(shown_format(mime, size)),
        shown_format(mime, size).len() > mime.len() + decimal(size as nat).len(),
        mime.len() <= 40 && decimal(size as nat).len() <= 10 ==> shown_format(mime, size).len()
            == 51,
        mime.len() <= i < shown_format(mime, size).len() - decimal(size as nat).len()
            ==> shown_format(mime, size)[i] == ' ',
{
    reveal_strlit(" ");
    assert(" "@ =~= seq![' ']);
    let line = shown_format(mime, size);
    let digits = decimal(size as nat);
    assert(mime =~= line.subrange(0, mime.len() as int));
    assert(digits =~= line.subrange(line.len() - digits.len(), line.len() as int));
}

// ---------------------------------------------------------------------------
// inspect
// ---------------------------------------------------------------------------

#[derive(Debug)]
pub struct InspectFormatEntry {
    pub mime: String,
    pub size: u64,
    pub blob_hash: String,
}

/// The full record of an item.
#[derive(Debug)]
pub struct InspectOutput {
    pub id: ItemId,
    pub created_at: Timestamp,
    pub updated_at: Timestamp,
    pub formats: Vec<InspectFormatEntry>,
}

/// MIME types, sizes and hashes, in order.
pub open spec fn inspected(list: Seq<InspectFormatEntry>) -> Seq<(Seq<char>, u64, Seq<char>)> {
    list.map_values(|f: InspectFormatEntry| (f.mime@, f.size, f.blob_hash@))
}

/// The full record of an item.
pub fn inspect_output(entry: &ItemWithFormats) -> (r: InspectOutput)
    ensures
        r.id == entry.item.id,
        r.created_at == entry.item.created_at,
        r.updated_at == entry.item.updated_at,
        inspected(r.formats@) == format_views(entry.formats@).map_values(
            |f: FormatView| (f.mime, f.size, f.blob_hash),
        ),
        r.formats@.len() == entry.formats@.len(),
        forall|i: int|
            0 <= i < r.formats@.len() ==> {
                &&& (#[trigger] r.formats@[i]).mime@ == entry.formats@[i].mime@
                &&& r.formats@[i].size == entry.formats@[i].size
                &&& r.formats@[i].blob_hash@ == entry.formats@[i].blob_hash@
            },
{
    let mut formats: Vec<InspectFormatEntry> = Vec::new();
    let mut i: usize = 0;
    while i < entry.formats.len()
        invariant
            i <= entry.formats@.len(),
            formats@.len() == i,
            forall|j: int|
                0 <= j < i ==> (#[trigger] formats@[j]).mime@ == entry.formats@[j].mime@
                    && formats@[j].size == entry.formats@[j].size && formats@[j].blob_hash@
                    == entry.formats@[j].blob_hash@,
        decreases entry.formats@.len() - i,
    {
        formats.push(
            InspectFormatEntry {
                mime: entry.formats[i].mime.clone(),
                size: entry.formats[i].size,
                blob_hash: entry.formats[i].blob_hash.clone(),
            },
        );
        i += 1;
    }
    assert(inspected(formats@) =~= format_views(entry.formats@).map_values(
        |f: FormatView| (f.mime, f.size, f.blob_hash),
    ));
    InspectOutput {
        id: entry.item.id,
        created_at: entry.item.created_at,
        updated_at: entry.item.updated_at,
        formats,
    }
}

// ---------------------------------------------------------------------------
// watch
// ---------------------------------------------------------------------------

/// What a watch asks for: the given MIME types and, with `image`, every
/// supported image format.
pub fn watch_params(event: Option<String>, mimes: Vec<String>, image: bool) -> (r: WatchEventsParams)
    ensures
        r.event_filter == event,
        texts(r.mime_filters@) == if image {
            texts(mimes@) + image_mimes()
        } else {
            texts(mimes@)
        },
        forall|mime: Seq<char>| #[trigger]
            texts(r.mime_filters@).contains(mime) <==> texts(mimes@).contains(mime) || image && (
            mime == "image/png"@ || mime == "image/webp"@ || mime == "image/jpeg"@ || mime
                == "image/bmp"@),
{
    let ghost given = texts(mimes@);
    let mut mime_filters = mimes;
    if image {
        let images = image_mime_priority();
        let ghost image_texts = images@.map_values(|s: &'static str| s@);
        let mut i: usize = 0;
        assert(texts(mime_filters@) =~= given + image_texts.take(0));
        while i < images.len()
            invariant
                i <= 4,
                images@.len() == 4,
                image_texts == images@.map_values(|s: &'static str| s@),
                texts(mime_filters@) == given + image_texts.take(i as int),
            decreases 4 - i,
        {
            let ghost before = texts(mime_filters@);
            mime_filters.push(images[i].to_owned());
            proof {
                let one = image_texts[i as int];
                assert(one == images@[i as int]@);
                assert(texts(mime_filters@) =~= before.push(one));
                assert(image_texts.take(i + 1) =~= image_texts.take(i as int).push(one));
                assert(before.push(one) =~= given + image_texts.take(i + 1));
            }
            i += 1;
        }
        assert(image_texts.take(4) =~= image_texts);
    }
    proof {
        let all = texts(mime_filters@);
        let images = image_mimes();
        assert(images[0] == "image/png"@ && images[1] == "image/webp"@);
        assert(images[2] == "image/jpeg"@ && images[3] == "image/bmp"@);
        assert forall|mime: Seq<char>| #[trigger]
            all.contains(mime) <==> given.contains(mime) || image && images.contains(mime) by {
            if image {
                assert(all == given + images);
                if all.contains(mime) {
                    let i = choose|i: int| 0 <= i < all.len() && all[i] == mime;
                    if i < given.len() {
                        assert(given[i] == mime);
                    } else {
                        assert(images[i - given.len()] == mime);
                    }
                }
                if given.contains(mime) {
                    let i = choose|i: int| 0 <= i < given.len() && given[i] == mime;
                    assert(all[i] == mime);
                }
                if images.contains(mime) {
                    let i = choose|i: int| 0 <= i < images.len() && images[i] == mime;
                    assert(all[given.len() + i] == mime);
                }
            }
        }
    }
    WatchEventsParams { event_filter: event, mime_filters }
}

/// How an event is shown to a person.
pub open spec fn event_shown(ev: WatchEvent) -> Seq<char> {
    match ev {
        WatchEvent::ItemAdded { id, formats, .. } => "item-added "@ + hyphenated_text(id.bits)
            + " "@ + joined(texts(formats@), ", "@),
        WatchEvent::ItemUpdated { id, changed } => "item-updated "@ + hyphenated_text(id.bits)
            + " changed: "@ + joined(texts(changed@), ", "@),
        WatchEvent::ItemDeleted { id } => "item-deleted "@ + hyphenated_text(id.bits),
    }
}

/// The line that shows an event to a person.
pub fn event_line(ev: &WatchEvent) -> (r: String)
    ensures
        r@ == event_shown(*ev),
{
    match ev {
        WatchEvent::ItemAdded { id, formats, .. } => {
            let text = id.to_text();
            let list = join_texts(formats.as_slice(), ", ");
            let head = join2("item-added ", text.as_str());
            join3(head.as_str(), " ", list.as_str())
        },
        WatchEvent::ItemUpdated { id, changed } => {
            let text = id.to_text();
            let list = join_texts(changed.as_slice(), ", ");
            let head = join2("item-updated ", text.as_str());
            join3(head.as_str(), " changed: ", list.as_str())
        },
        WatchEvent::ItemDeleted { id } => {
            let text = id.to_text();
            join2("item-deleted ", text.as_str())
        },
    }
}

/// The line of an event begins with its tag and the id of the item, and ends
/// with the types that it tells of.
pub proof fn law_event_lines(ev: WatchEvent)
    ensures
        ({
            let id = match ev {
                WatchEvent::ItemAdded { id, .. } => id,
                WatchEvent::ItemUpdated { id, .. } => id,
                WatchEvent::ItemDeleted { id } => id,
            };
            (tag_of(ev) + seq![' '] + hyphenated_text(id.bits)).is_prefix_of(event_shown(ev))
        }),
        ev matches WatchEvent::ItemAdded { formats, .. } ==> joined(
            texts(formats@),
            seq![',', ' '],
        ).is_suffix_of(event_shown(ev)),
        ev matches WatchEvent::ItemUpdated { changed, .. } ==> joined(
            texts(changed@),
            seq![',', ' '],
        ).is_suffix_of(event_shown(ev)),
{
    reveal_strlit("item-added ");
    reveal_strlit("item-updated ");
    reveal_strlit("item-deleted ");
    reveal_strlit("item-added");
    reveal_strlit("item-updated");
    reveal_strlit("item-deleted");
    reveal_strlit(", ");
    assert(", "@ =~= seq![',', ' ']);
    assert("item-added "@ =~= "item-added"@ + seq![' ']);
    assert("item-updated "@ =~= "item-updated"@ + seq![' ']);
    assert("item-deleted "@ =~= "item-deleted"@ + seq![' ']);
    let line = event_shown(ev);
    match ev {
        WatchEvent::ItemAdded { id, formats, .. } => {
            let head = tag_of(ev) + seq![' '] + hyphenated_text(id.bits);
            let tail = joined(texts(formats@), ", "@);
            assert(head =~= line.subrange(0, head.len() as int));
            assert(tail =~= line.subrange(line.len() - tail.len(), line.len() as int));
        },
        WatchEvent::ItemUpdated { id, changed } => {
            let head = tag_of(ev) + seq![' '] + hyphenated_text(id.bits);
            let tail = joined(texts(changed@), ", "@);
            assert(head =~= line.subrange(0, head.len() as int));
            assert(tail =~= line.subrange(line.len() - tail.len(), line.len() as int));
        },
        WatchEvent::ItemDeleted { id } => {
            let head = tag_of(ev) + seq![' '] + hyphenated_text(id.bits);
            assert(head =~= line.subrange(0, head.len() as int));
        },
    }
}

} // verus!

//! What jj is asked about a repository, and what its replies say.
use crate::diff;
use crate::text;
use vstd::prelude::*;

verus! {

// ---------------------------------------------------------------------------------------------
// Requests
// ---------------------------------------------------------------------------------------------

/// Copies of texts.
fn owned(texts: &[&str]) -> (r: Vec<String>)
    ensures
        text::views(r@) == text::str_views(texts@),
{
    let mut out: Vec<String> = Vec::new();
    text::push_texts(&mut out, texts);
    assert(text::views(out@) =~= text::str_views(texts@));
    out
}

/// Asks for the root directory of the workspace.
pub fn repo_root_request() -> (r: Vec<String>)
    ensures
        text::views(r@) == seq!["root"@, "--no-pager"@],
{
    owned(&["root", "--no-pager"])
}

/// The arguments that ask for the change that each line of a file comes from.
pub open spec fn annotate_args(revision: Seq<char>, file: Seq<char>) -> Seq<Seq<char>> {
    seq![
        "file"@,
        "annotate"@,
        "--no-pager"@,
        "-r"@,
        revision,
        "-T"@,
        "commit.change_id().shortest(8) ++ \"\\n\""@,
        file,
    ]
}

/// Asks for the change that each line of a file comes from, one short change id per line. To be
/// run in the root directory, which `file` is relative to.
pub fn annotations_request(revision: &str, file: &str) -> (r: Vec<String>)
    ensures
        text::views(r@) == annotate_args(revision@, file@),
{
    owned(
        &[
            "file",
            "annotate",
            "--no-pager",
            "-r",
            revision,
            "-T",
            "commit.change_id().shortest(8) ++ \"\\n\"",
            file,
        ],
    )
}

/// The revisions that changes of `source` may go into: the mutable ones among its ancestors.
pub open spec fn mutable_ancestors_of(source: Seq<char>) -> Seq<char> {
    "immutable_heads()..("@ + source + "-)"@
}

/// The revisions that changes of `source` may go into: the mutable ones among its ancestors.
fn mutable_ancestors_revset(source: &str) -> (r: String)
    ensures
        r@ == mutable_ancestors_of(source@),
{
    let mut revset = "immutable_heads()..(".to_string();
    revset.append(source);
    revset.append("-)");
    revset
}

/// Asks for the revisions that `revset` stands for, each written by `template`.
pub open spec fn log_args(revset: Seq<char>, template: Seq<char>) -> Seq<Seq<char>> {
    seq!["log"@, "--no-pager"@, "--no-graph"@, "-r"@, revset, "-T"@, template]
}

/// The arguments that ask for the mutable ancestors of a revision.
pub open spec fn ancestors_args(source: Seq<char>) -> Seq<Seq<char>> {
    log_args(
        mutable_ancestors_of(source),
        "change_id.shortest(8) ++ \"\\t\" ++ description.first_line() ++ \"\\n\""@,
    )
}

/// The arguments that ask for the mutable ancestors of a revision that touched a file.
pub open spec fn touching_args(source: Seq<char>, file: Seq<char>) -> Seq<Seq<char>> {
    log_args(
        "("@ + mutable_ancestors_of(source) + ") & files(\""@ + file + "\")"@,
        "change_id.shortest(8) ++ \"\\n\""@,
    )
}

/// Asks for the mutable ancestors of a revision, most recent first: for each a line with its
/// short change id, a tab, and the first line of its description.
pub fn mutable_ancestors_request(source_rev: &str) -> (r: Vec<String>)
    ensures
        text::views(r@) == ancestors_args(source_rev@),
{
    owned(
        &[
            "log",
            "--no-pager",
            "--no-graph",
            "-r",
            &mutable_ancestors_revset(source_rev),
            "-T",
            "change_id.shortest(8) ++ \"\\t\" ++ description.first_line() ++ \"\\n\"",
        ],
    )
}

/// Asks for the mutable ancestors of a revision that touched a file, most recent first: a short
/// change id per line. To be run in the root directory, which `file` is relative to.
pub fn ancestors_touching_file_request(source_rev: &str, file: &str) -> (r: Vec<String>)
    ensures
        text::views(r@) == touching_args(source_rev@, file@),
{
    let mut revset = "(".to_string();
    revset.append(&mutable_ancestors_revset(source_rev));
    revset.append(") & files(\"");
    revset.append(file);
    revset.append("\")");
    owned(
        &[
            "log",
            "--no-pager",
            "--no-graph",
            "-r",
            &revset,
            "-T",
            "change_id.shortest(8) ++ \"\\n\"",
        ],
    )
}

/// Asks for the id of the current operation.
pub fn current_op_id_request() -> (r: Vec<String>)
    ensures
        text::views(r@) == seq![
            "op"@,
            "log"@,
            "--no-pager"@,
            "--no-graph"@,
            "--limit"@,
            "1"@,
            "-T"@,
            "self.id().short(16)"@,
        ],
{
    owned(
        &["op", "log", "--no-pager", "--no-graph", "--limit", "1", "-T", "self.id().short(16)"],
    )
}

/// The arguments that ask for the diff of a revision, or of the working copy.
pub open spec fn diff_args(revision: Option<Seq<char>>) -> Seq<Seq<char>> {
    seq!["diff"@, "--git"@, "--no-pager"@] + match revision {
        Some(revision) => seq!["-r"@, revision],
        None => Seq::empty(),
    }
}

/// The arguments that ask for the diff between two revisions.
pub open spec fn diff_between_args(from: Seq<char>, to: Seq<char>) -> Seq<Seq<char>> {
    seq!["diff"@, "--git"@, "--no-pager"@, "--from"@, from, "--to"@, to]
}

/// Asks for the diff of a revision, or of the working copy.
pub fn diff_request(revision: Option<&str>) -> (r: Vec<String>)
    ensures
        text::views(r@) == diff_args(text::text_in(revision)),
{
    let mut out = owned(&["diff", "--git", "--no-pager"]);
    if let Some(rev) = revision {
        text::push_texts(&mut out, &["-r", rev]);
    }
    out
}

/// Asks for the diff between two revisions.
pub fn diff_from_to_request(from: &str, to: &str) -> (r: Vec<String>)
    ensures
        text::views(r@) == diff_between_args(from@, to@),
{
    owned(&["diff", "--git", "--no-pager", "--from", from, "--to", to])
}

// ---------------------------------------------------------------------------------------------
// Replies
// ---------------------------------------------------------------------------------------------

/// What a run of jj leaves behind.
#[derive(Debug, PartialEq, Eq)]
pub struct JjReply {
    /// Whether it exited with success.
    pub success: bool,
    /// What it wrote to standard output.
    pub stdout: Vec<u8>,
    /// What it wrote to standard error.
    pub stderr: Vec<u8>,
}

/// Why a reply holds no answer.
#[derive(Debug, PartialEq, Eq)]
pub enum JjError {
    /// jj failed. Holds the message: which command it was, and what it wrote to standard error.
    Failed(String),
    /// The output is not UTF-8. Holds the message.
    NotUtf8(String),
}

/// What a [`JjError`] holds.
pub enum JjErrorView {
    Failed(Seq<char>),
    NotUtf8(Seq<char>),
}

impl View for JjError {
    type V = JjErrorView;

    open spec fn view(&self) -> JjErrorView {
        match self {
            JjError::Failed(message) => JjErrorView::Failed(message@),
            JjError::NotUtf8(message) => JjErrorView::NotUtf8(message@),
        }
    }
}

impl JjErrorView {
    /// The message of the error.
    pub open spec fn message(self) -> Seq<char> {
        match self {
            JjErrorView::Failed(message) => message,
            JjErrorView::NotUtf8(message) => message,
        }
    }
}

impl JjError {
    /// The message of the error.
    pub fn message(&self) -> (r: String)
        ensures
            r@ == self@.message(),
    {
        match self {
            JjError::Failed(message) => message.clone(),
            JjError::NotUtf8(message) => message.clone(),
        }
    }
}

/// The message with which `String::from_utf8` refuses bytes that are not UTF-8.
pub uninterp spec fn utf8_complaint(bytes: Seq<u8>) -> Seq<char>;

/// `String::from_utf8`: the text that the bytes encode, if they are UTF-8. The error comes as its
/// text.
#[verifier::external_body]
fn decoded(bytes: Vec<u8>) -> (r: Result<String, String>)
    ensures
        r is Ok <==> vstd::utf8::valid_utf8(bytes@),
        r is Ok ==> r->Ok_0@ == vstd::utf8::decode_utf8(bytes@),
        r is Err ==> r->Err_0@ == utf8_complaint(bytes@),
{
    String::from_utf8(bytes).map_err(|e| e.to_string())
}

/// The text that `String::from_utf8_lossy` makes of bytes that are not UTF-8.
pub uninterp spec fn lossy_text(bytes: Seq<u8>) -> Seq<char>;

/// The text that bytes encode, given what is made of bytes that are not UTF-8.
pub open spec fn readable(bytes: Seq<u8>, lossy: Seq<char>) -> Seq<char> {
    if vstd::utf8::valid_utf8(bytes) {
        vstd::utf8::decode_utf8(bytes)
    } else {
        lossy
    }
}

/// `String::from_utf8_lossy`: the text that the bytes encode, with replacement characters where
/// they are not UTF-8.
#[verifier::external_body]
fn decoded_lossy(bytes: &[u8]) -> (r: String)
    ensures
        r@ == readable(bytes@, lossy_text(bytes@)),
{
    String::from_utf8_lossy(bytes).into_owned()
}

/// The error of a command that failed with this text on standard error.
pub open spec fn failure(command: Seq<char>, complaint: Seq<char>) -> JjErrorView {
    JjErrorView::Failed(command + " failed: "@ + complaint)
}

/// The text that a command replies with.
pub open spec fn reply_text(command: Seq<char>, reply: JjReply) -> Result<Seq<char>, JjErrorView> {
    if !reply.success {
        Err(failure(command, readable(reply.stderr@, lossy_text(reply.stderr@))))
    } else if vstd::utf8::valid_utf8(reply.stdout@) {
        Ok(vstd::utf8::decode_utf8(reply.stdout@))
    } else {
        Err(JjErrorView::NotUtf8(utf8_complaint(reply.stdout@)))
    }
}

/// The error of a command that failed with this text on standard error.
pub fn failed(command: &str, complaint: &str) -> (r: JjError)
    ensures
        r@ == failure(command@, complaint@),
{
    let mut message = command.to_string();
    message.append(" failed: ");
    message.append(complaint);
    JjError::Failed(message)
}

/// The text that a command replies with.
fn text_of_reply(command: &str, reply: JjReply) -> (r: Result<String, JjError>)
    ensures
        (match r {
            Ok(text) => Ok(text@),
            Err(e) => Err(e@),
        }) == reply_text(command@, reply),
{
    if !reply.success {
        return Err(failed(command, &decoded_lossy(reply.stderr.as_slice())));
    }
    match decoded(reply.stdout) {
        Ok(text) => Ok(text),
        Err(message) => Err(JjError::NotUtf8(message)),
    }
}

/// What a text or an error holds.
pub open spec fn text_or_error(r: Result<String, JjError>) -> Result<Seq<char>, JjErrorView> {
    match r {
        Ok(text) => Ok(text@),
        Err(e) => Err(e@),
    }
}

/// What texts or an error hold.
pub open spec fn texts_or_error(r: Result<Vec<String>, JjError>) -> Result<
    Seq<Seq<char>>,
    JjErrorView,
> {
    match r {
        Ok(texts) => Ok(text::views(texts@)),
        Err(e) => Err(e@),
    }
}

/// The reply without white space at its ends.
pub open spec fn trimmed_reply(command: Seq<char>, reply: JjReply) -> Result<
    Seq<char>,
    JjErrorView,
> {
    match reply_text(command, reply) {
        Ok(text) => Ok(text::trim(text)),
        Err(e) => Err(e),
    }
}

/// The lines of a reply.
pub open spec fn reply_lines(command: Seq<char>, reply: JjReply) -> Result<
    Seq<Seq<char>>,
    JjErrorView,
> {
    match reply_text(command, reply) {
        Ok(text) => Ok(text::lines(text)),
        Err(e) => Err(e),
    }
}

/// Reads the reply to [`repo_root_request`]: the path of the root directory.
pub fn read_repo_root(reply: JjReply) -> (r: Result<String, JjError>)
    ensures
        text_or_error(r) == trimmed_reply("jj root"@, reply),
{
    match text_of_reply("jj root", reply) {
        Ok(text) => Ok(text::trimmed(&text).to_string()),
        Err(e) => Err(e),
    }
}

/// Reads the reply to [`annotations_request`]: a change id for each line of the file.
pub fn read_annotations(reply: JjReply) -> (r: Result<Vec<String>, JjError>)
    ensures
        texts_or_error(r) == reply_lines("jj file annotate"@, reply),
{
    match text_of_reply("jj file annotate", reply) {
        Ok(text) => Ok(text::lines_of(&text)),
        Err(e) => Err(e),
    }
}

/// Reads the reply to [`ancestors_touching_file_request`]: change ids, most recent first.
pub fn read_ancestors_touching_file(reply: JjReply) -> (r: Result<Vec<String>, JjError>)
    ensures
        texts_or_error(r) == reply_lines("jj log"@, reply),
{
    match text_of_reply("jj log", reply) {
        Ok(text) => Ok(text::lines_of(&text)),
        Err(e) => Err(e),
    }
}

/// Reads the reply to [`current_op_id_request`].
pub fn read_current_op_id(reply: JjReply) -> (r: Result<String, JjError>)
    ensures
        text_or_error(r) == trimmed_reply("jj op log"@, reply),
{
    match text_of_reply("jj op log", reply) {
        Ok(text) => Ok(text::trimmed(&text).to_string()),
        Err(e) => Err(e),
    }
}

/// The diff in a reply, made safe for [`diff::parse_diff`].
pub open spec fn diff_in_reply(reply: JjReply) -> Result<Seq<char>, JjErrorView> {
    match reply_text("jj diff"@, reply) {
        Ok(text) => Ok(diff::protected(text)),
        Err(e) => Err(e),
    }
}

/// Reads the reply to [`diff_request`] or [`diff_from_to_request`]: the diff, made safe for
/// [`diff::parse_diff`].
pub fn read_diff(reply: JjReply) -> (r: Result<String, JjError>)
    ensures
        text_or_error(r) == diff_in_reply(reply),
{
    match text_of_reply("jj diff", reply) {
        Ok(text) => Ok(diff::preserve_crlf(&text)),
        Err(e) => Err(e),
    }
}

// ---------------------------------------------------------------------------------------------
// Mutable ancestors
// ---------------------------------------------------------------------------------------------

/// The mutable ancestors of a revision: their change ids and the first lines of their
/// descriptions.
#[derive(Debug, PartialEq, Eq)]
pub struct Ancestors {
    /// A change id and a description for each ancestor, in the order in which jj gave them.
    pub entries: Vec<(String, String)>,
}

impl View for Ancestors {
    type V = Seq<(Seq<char>, Seq<char>)>;

    open spec fn view(&self) -> Seq<(Seq<char>, Seq<char>)> {
        text::pair_views(self.entries@)
    }
}

/// The ancestors that lines name. A line without a tab names none.
pub open spec fn ancestors_of_lines(lines: Seq<Seq<char>>) -> Seq<(Seq<char>, Seq<char>)>
    decreases lines.len(),
{
    if lines.len() == 0 {
        Seq::empty()
    } else {
        let front = ancestors_of_lines(lines.drop_last());
        match text::split_once(lines.last(), "\t"@) {
            Some(entry) => front.push(entry),
            None => front,
        }
    }
}

/// Whether a change is one of the ancestors.
pub open spec fn is_ancestor(ancestors: Seq<(Seq<char>, Seq<char>)>, id: Seq<char>) -> bool {
    exists|i: int| 0 <= i < ancestors.len() && (#[trigger] ancestors[i]).0 == id
}

/// The description of a change: the last one given for its id, or none.
pub open spec fn description(
    ancestors: Seq<(Seq<char>, Seq<char>)>,
    id: Seq<char>,
) -> Seq<char>
    decreases ancestors.len(),
{
    if ancestors.len() == 0 {
        Seq::empty()
    } else if ancestors.last().0 == id {
        ancestors.last().1
    } else {
        description(ancestors.drop_last(), id)
    }
}

/// The change ids of the ancestors, each once, in the order in which they are first given.
pub open spec fn ancestor_ids(ancestors: Seq<(Seq<char>, Seq<char>)>) -> Seq<Seq<char>>
    decreases ancestors.len(),
{
    if ancestors.len() == 0 {
        Seq::empty()
    } else if is_ancestor(ancestors.drop_last(), ancestors.last().0) {
        ancestor_ids(ancestors.drop_last())
    } else {
        ancestor_ids(ancestors.drop_last()).push(ancestors.last().0)
    }
}

impl Ancestors {
    /// Whether a change is one of the ancestors.
    pub fn contains(&self, id: &str) -> (r: bool)
        ensures
            r == is_ancestor(self@, id@),
    {
        assert(self@.take(self@.len() as int) =~= self@);
        self.among_first(self.entries.len(), id)
    }

    /// Whether a change is one of the first `n` entries.
    fn among_first(&self, n: usize, id: &str) -> (r: bool)
        requires
            n <= self.entries@.len(),
        ensures
            r == is_ancestor(self@.take(n as int), id@),
    {
        let ghost all = self@.take(n as int);
        let mut i: usize = 0;
        while i < n
            invariant
                i <= n <= self.entries@.len(),
                all == self@.take(n as int),
                forall|j: int| 0 <= j < i ==> (#[trigger] all[j]).0 != id@,
            decreases n - i,
        {
            assert(all[i as int].0 == self.entries@[i as int].0@);
            if text::same_text(&self.entries[i].0, id) {
                return true;
            }
            i = i + 1;
        }
        false
    }

    /// The description of a change: the last one given for its id, or none.
    pub fn description(&self, id: &str) -> (r: String)
        ensures
            r@ == description(self@, id@),
    {
        let mut i: usize = self.entries.len();
        assert(self@.take(i as int) =~= self@);
        while i > 0
            invariant
                i <= self.entries@.len(),
                description(self@, id@) == description(self@.take(i as int), id@),
            decreases i,
        {
            proof {
                let front = self@.take(i as int);
                assert(front.drop_last() =~= self@.take(i - 1));
                assert(front.last() == self@[i - 1]);
            }
            if text::same_text(&self.entries[i - 1].0, id) {
                return self.entries[i - 1].1.clone();
            }
            i = i - 1;
        }
        let none = String::new();
        assert(none@ =~= Seq::empty());
        none
    }

    /// The change ids of the ancestors, each once, in the order in which they are first given.
    pub fn ids(&self) -> (r: Vec<String>)
        ensures
            text::views(r@) == ancestor_ids(self@),
    {
        let mut out: Vec<String> = Vec::new();
        let mut i: usize = 0;
        assert(text::views(out@) =~= ancestor_ids(self@.take(0)));
        while i < self.entries.len()
            invariant
                i <= self.entries@.len(),
                text::views(out@) == ancestor_ids(self@.take(i as int)),
            decreases self.entries@.len() - i,
        {
            proof {
                let front = self@.take(i + 1);
                assert(front.drop_last() =~= self@.take(i as int));
                assert(front.last() == self@[i as int]);
            }
            if !self.among_first(i, &self.entries[i].0) {
                text::push_text(&mut out, &self.entries[i].0);
            }
            i = i + 1;
        }
        assert(self@.take(i as int) =~= self@);
        out
    }
}

/// Reads ancestors, one per line: a change id, a tab, and a description.
pub fn ancestors_in(listing: &str) -> (r: Ancestors)
    ensures
        r@ == ancestors_of_lines(text::lines(listing@)),
{
    let lines = text::lines_of(listing);
    let ghost all = text::views(lines@);
    let mut entries: Vec<(String, String)> = Vec::new();
    let mut i: usize = 0;
    assert(text::pair_views(entries@) =~= ancestors_of_lines(all.take(0)));
    while i < lines.len()
        invariant
            i <= lines@.len(),
            all == text::views(lines@),
            text::pair_views(entries@) == ancestors_of_lines(all.take(i as int)),
        decreases lines@.len() - i,
    {
        proof {
            assert(all.take(i + 1).drop_last() =~= all.take(i as int));
            assert(all.take(i + 1).last() == all[i as int]);
        }
        let ghost front = text::pair_views(entries@);
        if let Some((id, desc)) = text::cut(&lines[i], "\t") {
            entries.push((id.to_string(), desc.to_string()));
            assert(text::pair_views(entries@) =~= front.push((id@, desc@)));
        }
        i = i + 1;
    }
    assert(all.take(i as int) =~= all);
    Ancestors { entries }
}

/// The ancestors in a reply.
pub open spec fn ancestors_in_reply(reply: JjReply) -> Result<
    Seq<(Seq<char>, Seq<char>)>,
    JjErrorView,
> {
    match reply_text("jj log"@, reply) {
        Ok(text) => Ok(ancestors_of_lines(text::lines(text))),
        Err(e) => Err(e),
    }
}

/// Reads the reply to [`mutable_ancestors_request`].
pub fn read_mutable_ancestors(reply: JjReply) -> (r: Result<Ancestors, JjError>)
    ensures
        (match r {
            Ok(ancestors) => Ok(ancestors@),
            Err(e) => Err(e@),
        }) == ancestors_in_reply(reply),
{
    match text_of_reply("jj log", reply) {
        Ok(text) => Ok(ancestors_in(&text)),
        Err(e) => Err(e),
    }
}

} // verus!

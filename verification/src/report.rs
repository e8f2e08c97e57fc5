//! What is printed: lines of text with styles.

use vstd::prelude::*;
use vstd::string::*;
use crate::error::{ErrorView, MigrateError};
use crate::info::{FragmentInfo, InfoView, MigratePlan, PlanView};
use crate::lint::{issue_views, DiagnosticIssue, IssueView, LintFormat};
use crate::number::{decimal, decimal_of};
use crate::text::{join, join_texts};

verus! {

/// How a piece of text looks.
#[derive(Debug, Clone, Copy, PartialEq, Eq)]
pub enum Style {
    Plain,
    Bold,
    Cyan,
    Yellow,
    Green,
    Red,
}

/// A piece of a line: a text, or the path of the file that the line is about.
#[derive(Debug, Clone, PartialEq, Eq)]
pub enum Piece {
    Text(Style, String),
    OutputPath,
}

/// The contents of a `Piece`.
pub enum PieceView {
    Text(Style, Seq<char>),
    OutputPath,
}

impl View for Piece {
    type V = PieceView;

    open spec fn view(&self) -> PieceView {
        match *self {
            Piece::Text(style, text) => PieceView::Text(style, text@),
            Piece::OutputPath => PieceView::OutputPath,
        }
    }
}

/// Where a line goes.
#[derive(Debug, Clone, Copy, PartialEq, Eq)]
pub enum Stream {
    Output,
    Errors,
}

/// A line that is printed.
#[derive(Debug, Clone, PartialEq, Eq)]
pub struct Line {
    pub stream: Stream,
    pub pieces: Vec<Piece>,
}

/// The contents of a `Line`.
pub struct LineView {
    pub stream: Stream,
    pub pieces: Seq<PieceView>,
}

/// The contents of a vector of pieces.
pub open spec fn piece_views(v: Seq<Piece>) -> Seq<PieceView> {
    Seq::new(v.len(), |i: int| v[i]@)
}

impl View for Line {
    type V = LineView;

    open spec fn view(&self) -> LineView {
        LineView { stream: self.stream, pieces: piece_views(self.pieces@) }
    }
}

/// The contents of a vector of lines.
pub open spec fn line_views(v: Seq<Line>) -> Seq<LineView> {
    Seq::new(v.len(), |i: int| v[i]@)
}

/// Plain text.
pub open spec fn plain(text: Seq<char>) -> PieceView {
    PieceView::Text(Style::Plain, text)
}

/// A line for the standard output.
pub open spec fn out_line(pieces: Seq<PieceView>) -> LineView {
    LineView { stream: Stream::Output, pieces }
}

/// A line for the standard error output.
pub open spec fn err_line(pieces: Seq<PieceView>) -> LineView {
    LineView { stream: Stream::Errors, pieces }
}

impl Line {
    /// An empty line for a stream.
    fn to(stream: Stream) -> (r: Line)
        ensures
            r@ == (LineView { stream, pieces: seq![] }),
    {
        let r = Line { stream, pieces: Vec::new() };
        assert(r@.pieces =~= seq![]);
        r
    }

    /// Adds a piece of text.
    fn add_text(&mut self, style: Style, text: &str)
        ensures
            final(self)@ == (LineView {
                stream: old(self)@.stream,
                pieces: old(self)@.pieces.push(PieceView::Text(style, text@)),
            }),
    {
        let ghost before = self@.pieces;
        self.pieces.push(Piece::Text(style, text.to_owned()));
        assert(self@.pieces =~= before.push(PieceView::Text(style, text@)));
    }

    /// Adds the path of the file that the line is about.
    fn add_path(&mut self)
        ensures
            final(self)@ == (LineView {
                stream: old(self)@.stream,
                pieces: old(self)@.pieces.push(PieceView::OutputPath),
            }),
    {
        let ghost before = self@.pieces;
        self.pieces.push(Piece::OutputPath);
        assert(self@.pieces =~= before.push(PieceView::OutputPath));
    }
}

/// Adds a line.
fn push_line(lines: &mut Vec<Line>, line: Line)
    ensures
        line_views(final(lines)@) == line_views(old(lines)@).push(line@),
{
    let ghost before = line_views(lines@);
    lines.push(line);
    assert(line_views(lines@) =~= before.push(line@));
}

// ---------------------------------------------------------------------------
// Plans
// ---------------------------------------------------------------------------

/// The line on a fragment.
pub open spec fn fragment_line(f: InfoView) -> LineView {
    if f.dependencies.len() == 0 {
        out_line(
            seq![
                plain("  - "@),
                PieceView::Text(Style::Cyan, f.filename),
                plain(" (id: "@),
                plain(f.id),
                plain(")"@),
            ],
        )
    } else {
        out_line(
            seq![
                plain("  - "@),
                PieceView::Text(Style::Cyan, f.filename),
                plain(" (id: "@),
                plain(f.id),
                plain(", depends on: ["@),
                PieceView::Text(Style::Yellow, join(f.dependencies, ", "@)),
                plain("])"@),
            ],
        )
    }
}

/// The lines on fragments.
pub open spec fn fragment_lines(fs: Seq<InfoView>) -> Seq<LineView> {
    Seq::new(fs.len(), |i: int| fragment_line(fs[i]))
}

/// The lines that show a plan.
pub open spec fn plan_lines(plan: PlanView) -> Seq<LineView> {
    let head = seq![
        out_line(
            seq![
                PieceView::Text(Style::Bold, "Extension:"@),
                plain(" "@),
                PieceView::Text(Style::Cyan, plan.extension_name),
                plain(" ("@),
                PieceView::Text(Style::Yellow, plan.prev_version),
                plain(" -> "@),
                PieceView::Text(Style::Green, plan.target_version),
                plain(")"@),
            ],
        ),
        out_line(
            seq![PieceView::Text(Style::Bold, "Output:"@), plain(" "@), PieceView::OutputPath],
        ),
    ];
    if plan.is_empty {
        head.push(
            out_line(
                seq![
                    PieceView::Text(Style::Bold, "Fragments:"@),
                    plain(" none (stub upgrade script)"@),
                ],
            ),
        )
    } else {
        head.push(
            out_line(
                seq![
                    PieceView::Text(Style::Bold, "Fragments:"@),
                    plain(" ("@),
                    plain(decimal(plan.fragments.len())),
                    plain("):"@),
                ],
            ),
        ) + fragment_lines(plan.fragments)
    }
}

/// Writes the line on a fragment.
fn render_fragment(f: &FragmentInfo) -> (r: Line)
    ensures
        r@ == fragment_line(f@),
{
    let mut line = Line::to(Stream::Output);
    line.add_text(Style::Plain, "  - ");
    line.add_text(Style::Cyan, f.filename.as_str());
    line.add_text(Style::Plain, " (id: ");
    line.add_text(Style::Plain, f.id.as_str());
    assert(f@.dependencies.len() == f.dependencies@.len());
    if f.dependencies.len() == 0 {
        line.add_text(Style::Plain, ")");
    } else {
        line.add_text(Style::Plain, ", depends on: [");
        line.add_text(Style::Yellow, join_texts(&f.dependencies, ", ").as_str());
        line.add_text(Style::Plain, "])");
    }
    assert(line@.pieces =~= fragment_line(f@).pieces);
    line
}

/// Writes the lines that show a plan.
pub fn render_plan_text(plan: &MigratePlan) -> (r: Vec<Line>)
    ensures
        line_views(r@) == plan_lines(plan@),
{
    let ghost shown = plan_lines(plan@);
    let mut lines: Vec<Line> = Vec::new();
    let mut first = Line::to(Stream::Output);
    first.add_text(Style::Bold, "Extension:");
    first.add_text(Style::Plain, " ");
    first.add_text(Style::Cyan, plan.extension_name.0.as_str());
    first.add_text(Style::Plain, " (");
    first.add_text(Style::Yellow, plan.prev_version.0.as_str());
    first.add_text(Style::Plain, " -> ");
    first.add_text(Style::Green, plan.target_version.0.as_str());
    first.add_text(Style::Plain, ")");
    assert(first@.pieces =~= shown[0].pieces);
    push_line(&mut lines, first);
    let mut second = Line::to(Stream::Output);
    second.add_text(Style::Bold, "Output:");
    second.add_text(Style::Plain, " ");
    second.add_path();
    assert(second@.pieces =~= shown[1].pieces);
    push_line(&mut lines, second);
    let mut third = Line::to(Stream::Output);
    third.add_text(Style::Bold, "Fragments:");
    assert(plan@.fragments.len() == plan.fragments@.len());
    if plan.is_empty {
        third.add_text(Style::Plain, " none (stub upgrade script)");
        assert(third@.pieces =~= shown[2].pieces);
        push_line(&mut lines, third);
        assert(line_views(lines@) =~= shown);
        return lines;
    }
    third.add_text(Style::Plain, " (");
    third.add_text(Style::Plain, decimal_of(plan.fragments.len() as u64).as_str());
    third.add_text(Style::Plain, "):");
    assert(third@.pieces =~= shown[2].pieces);
    push_line(&mut lines, third);
    assert(line_views(lines@) =~= shown.take(3));
    let mut i: usize = 0;
    while i < plan.fragments.len()
        invariant
            i <= plan.fragments@.len(),
            shown == plan_lines(plan@),
            !plan.is_empty,
            plan@.fragments.len() == plan.fragments@.len(),
            line_views(lines@) == shown.take(3 + i),
        decreases plan.fragments@.len() - i,
    {
        let line = render_fragment(&plan.fragments[i]);
        push_line(&mut lines, line);
        proof {
            assert(shown[3 + i] == fragment_line(plan@.fragments[i as int]));
            assert(shown.take(3 + i).push(shown[3 + i]) =~= shown.take(3 + i + 1));
        }
        i += 1;
    }
    assert(shown.take(3 + i) =~= shown);
    lines
}

// ---------------------------------------------------------------------------
// Findings
// ---------------------------------------------------------------------------

/// The lines on findings for a terminal.
pub open spec fn text_lines(issues: Seq<IssueView>) -> Seq<LineView> {
    if issues.len() == 0 {
        seq![
            out_line(
                seq![
                    PieceView::Text(Style::Green, "✅"@),
                    plain(" All migration fragments passed lint checks."@),
                ],
            ),
        ]
    } else {
        Seq::new(issues.len(), |i: int| text_line(issues[i])).push(
            out_line(
                seq![
                    plain("\n"@),
                    PieceView::Text(Style::Red, "❌"@),
                    plain(" Migration fragment lint failed with "@),
                    plain(decimal(issues.len())),
                    plain(" error(s)."@),
                ],
            ),
        )
    }
}

/// The line on a finding for a terminal.
pub open spec fn text_line(issue: IssueView) -> LineView {
    out_line(
        seq![
            PieceView::Text(Style::Red, "❌"@),
            plain(" "@),
            PieceView::Text(Style::Bold, issue.filename),
            plain(": "@),
            plain(issue.message),
        ],
    )
}

/// The line that annotates a file.
pub open spec fn annotation_line(issue: IssueView) -> LineView {
    out_line(
        seq![plain("::error file="@), plain(issue.file), plain("::"@), plain(issue.message)],
    )
}

/// The line that tells a finding beside an annotation.
pub open spec fn annotation_note(issue: IssueView) -> LineView {
    err_line(
        seq![plain("❌ "@), plain(issue.filename), plain(": "@), plain(issue.message)],
    )
}

/// The annotations of the first `n` findings.
pub open spec fn annotation_lines(issues: Seq<IssueView>, n: nat) -> Seq<LineView>
    decreases n,
{
    if n == 0 {
        seq![]
    } else {
        annotation_lines(issues, (n - 1) as nat).push(annotation_line(issues[n - 1])).push(
            annotation_note(issues[n - 1]),
        )
    }
}

/// The lines on findings for annotations.
pub open spec fn github_lines(issues: Seq<IssueView>) -> Seq<LineView> {
    if issues.len() == 0 {
        seq![out_line(seq![plain("✅ All migration fragments passed lint checks."@)])]
    } else {
        annotation_lines(issues, issues.len()).push(
            err_line(
                seq![
                    plain("\n❌ Migration fragment lint failed with "@),
                    plain(decimal(issues.len())),
                    plain(" error(s)."@),
                ],
            ),
        )
    }
}

/// What is printed of findings: lines, or the findings themselves as data.
#[derive(Debug, Clone, PartialEq, Eq)]
pub enum LintOutput {
    Lines(Vec<Line>),
    Data,
}

/// A line on a finding for a terminal.
fn render_text_issue(issue: &DiagnosticIssue) -> (r: Line)
    ensures
        r@ == text_line(issue@),
{
    let mut line = Line::to(Stream::Output);
    line.add_text(Style::Red, "❌");
    line.add_text(Style::Plain, " ");
    line.add_text(Style::Bold, issue.filename.as_str());
    line.add_text(Style::Plain, ": ");
    line.add_text(Style::Plain, issue.message.as_str());
    assert(line@.pieces =~= text_line(issue@).pieces);
    line
}

/// Writes findings for a terminal.
fn render_text(issues: &Vec<DiagnosticIssue>) -> (r: Vec<Line>)
    ensures
        line_views(r@) == text_lines(issue_views(issues@)),
{
    let ghost all = issue_views(issues@);
    let ghost shown = text_lines(all);
    let mut lines: Vec<Line> = Vec::new();
    if issues.len() == 0 {
        let mut line = Line::to(Stream::Output);
        line.add_text(Style::Green, "✅");
        line.add_text(Style::Plain, " All migration fragments passed lint checks.");
        assert(line@.pieces =~= shown[0].pieces);
        push_line(&mut lines, line);
        assert(line_views(lines@) =~= shown);
        return lines;
    }
    let mut i: usize = 0;
    assert(line_views(lines@) =~= shown.take(0));
    while i < issues.len()
        invariant
            i <= issues@.len(),
            issues@.len() > 0,
            all == issue_views(issues@),
            shown == text_lines(all),
            line_views(lines@) == shown.take(i as int),
        decreases issues@.len() - i,
    {
        let line = render_text_issue(&issues[i]);
        push_line(&mut lines, line);
        proof {
            assert(shown[i as int] == text_line(all[i as int]));
            assert(shown.take(i as int).push(shown[i as int]) =~= shown.take(i + 1));
        }
        i += 1;
    }
    let mut last = Line::to(Stream::Output);
    last.add_text(Style::Plain, "\n");
    last.add_text(Style::Red, "❌");
    last.add_text(Style::Plain, " Migration fragment lint failed with ");
    last.add_text(Style::Plain, decimal_of(issues.len() as u64).as_str());
    last.add_text(Style::Plain, " error(s).");
    assert(last@.pieces =~= shown[i as int].pieces);
    push_line(&mut lines, last);
    assert(line_views(lines@) =~= shown);
    lines
}

/// Writes findings as annotations.
fn render_github(issues: &Vec<DiagnosticIssue>) -> (r: Vec<Line>)
    ensures
        line_views(r@) == github_lines(issue_views(issues@)),
{
    let ghost all = issue_views(issues@);
    let ghost shown = github_lines(all);
    let mut lines: Vec<Line> = Vec::new();
    if issues.len() == 0 {
        let mut line = Line::to(Stream::Output);
        line.add_text(Style::Plain, "✅ All migration fragments passed lint checks.");
        assert(line@.pieces =~= shown[0].pieces);
        push_line(&mut lines, line);
        assert(line_views(lines@) =~= shown);
        return lines;
    }
    let mut i: usize = 0;
    assert(line_views(lines@) =~= annotation_lines(all, 0));
    while i < issues.len()
        invariant
            i <= issues@.len(),
            all == issue_views(issues@),
            line_views(lines@) == annotation_lines(all, i as nat),
        decreases issues@.len() - i,
    {
        let issue = &issues[i];
        assert(all[i as int] == issue@);
        let mut line = Line::to(Stream::Output);
        line.add_text(Style::Plain, "::error file=");
        line.add_text(Style::Plain, issue.file.as_str());
        line.add_text(Style::Plain, "::");
        line.add_text(Style::Plain, issue.message.as_str());
        assert(line@.pieces =~= annotation_line(issue@).pieces);
        push_line(&mut lines, line);
        let mut note = Line::to(Stream::Errors);
        note.add_text(Style::Plain, "❌ ");
        note.add_text(Style::Plain, issue.filename.as_str());
        note.add_text(Style::Plain, ": ");
        note.add_text(Style::Plain, issue.message.as_str());
        assert(note@.pieces =~= annotation_note(issue@).pieces);
        push_line(&mut lines, note);
        i += 1;
    }
    let mut last = Line::to(Stream::Errors);
    last.add_text(Style::Plain, "\n❌ Migration fragment lint failed with ");
    last.add_text(Style::Plain, decimal_of(issues.len() as u64).as_str());
    last.add_text(Style::Plain, " error(s).");
    assert(last@.pieces =~= shown.last().pieces);
    push_line(&mut lines, last);
    assert(line_views(lines@) =~= shown);
    lines
}

/// Writes findings in the given format.
pub fn render_lint_diagnostics(issues: &Vec<DiagnosticIssue>, format: LintFormat) -> (r: LintOutput)
    ensures
        match (format, r) {
            (LintFormat::Text, LintOutput::Lines(lines)) => line_views(lines@) == text_lines(
                issue_views(issues@),
            ),
            (LintFormat::Github, LintOutput::Lines(lines)) => line_views(lines@) == github_lines(
                issue_views(issues@),
            ),
            (LintFormat::Json, LintOutput::Data) => true,
            _ => false,
        },
{
    match format {
        LintFormat::Text => LintOutput::Lines(render_text(issues)),
        LintFormat::Github => LintOutput::Lines(render_github(issues)),
        LintFormat::Json => LintOutput::Data,
    }
}

/// Tells whether a check passed: there is no finding.
pub fn lint_verdict(issues: &Vec<DiagnosticIssue>) -> (r: Result<(), MigrateError>)
    ensures
        match r {
            Ok(_) => issues@.len() == 0,
            Err(e) => issues@.len() > 0 && e@ == (ErrorView::LintFailed { count: issues@.len() }),
        },
{
    if issues.len() == 0 {
        Ok(())
    } else {
        Err(MigrateError::LintFailed { count: issues.len() })
    }
}

// ---------------------------------------------------------------------------
// Laws
// ---------------------------------------------------------------------------

/// What a reader sees of the first `n` pieces, where `path` is the path of the output file.
pub open spec fn read_first(pieces: Seq<PieceView>, n: nat, path: Seq<char>) -> Seq<char>
    decreases n,
{
    if n == 0 {
        seq![]
    } else {
        read_first(pieces, (n - 1) as nat, path) + match pieces[n - 1] {
            PieceView::Text(style, text) => text,
            PieceView::OutputPath => path,
        }
    }
}

/// What a reader sees of pieces.
pub open spec fn read(pieces: Seq<PieceView>, path: Seq<char>) -> Seq<char> {
    read_first(pieces, pieces.len(), path)
}

/// A plan is shown on the standard output: the extension with its versions, the script, the
/// number of fragments or that there are none, and then one line for each fragment.
pub proof fn law_plan_as_shown(plan: PlanView, path: Seq<char>)
    ensures
        ({
            let lines = plan_lines(plan);
            &&& read(lines[0].pieces, path) == "Extension:"@ + " "@ + plan.extension_name + " ("@
                + plan.prev_version + " -> "@ + plan.target_version + ")"@
            &&& read(lines[1].pieces, path) == "Output:"@ + " "@ + path
            &&& plan.is_empty ==> lines.len() == 3 && read(lines[2].pieces, path) == "Fragments:"@
                + " none (stub upgrade script)"@
            &&& !plan.is_empty ==> lines.len() == 3 + plan.fragments.len() && read(
                lines[2].pieces,
                path,
            ) == "Fragments:"@ + " ("@ + decimal(plan.fragments.len()) + "):"@
            &&& forall|k: int| 0 <= k < lines.len() ==> (#[trigger] lines[k]).stream is Output
        }),
{
    let lines = plan_lines(plan);
    reveal_with_fuel(read_first, 9);
    assert(read(lines[0].pieces, path) =~= "Extension:"@ + " "@ + plan.extension_name + " ("@
        + plan.prev_version + " -> "@ + plan.target_version + ")"@);
    assert(read(lines[1].pieces, path) =~= "Output:"@ + " "@ + path);
    if plan.is_empty {
        assert(read(lines[2].pieces, path) =~= "Fragments:"@ + " none (stub upgrade script)"@);
    } else {
        assert(read(lines[2].pieces, path) =~= "Fragments:"@ + " ("@ + decimal(
            plan.fragments.len(),
        ) + "):"@);
    }
}

/// The line of a fragment shows its file name and its identifier, and where it has
/// dependencies all of them.
pub proof fn law_fragment_as_shown(plan: PlanView, path: Seq<char>, k: int)
    requires
        !plan.is_empty,
        0 <= k < plan.fragments.len(),
    ensures
        ({
            let line = plan_lines(plan)[3 + k];
            let f = plan.fragments[k];
            &&& f.dependencies.len() == 0 ==> read(line.pieces, path) == "  - "@ + f.filename
                + " (id: "@ + f.id + ")"@
            &&& f.dependencies.len() > 0 ==> read(line.pieces, path) == "  - "@ + f.filename
                + " (id: "@ + f.id + ", depends on: ["@ + join(f.dependencies, ", "@) + "])"@
        }),
{
    let line = plan_lines(plan)[3 + k];
    let f = plan.fragments[k];
    reveal_with_fuel(read_first, 9);
    assert(line == fragment_line(f));
    if f.dependencies.len() == 0 {
        assert(read(line.pieces, path) =~= "  - "@ + f.filename + " (id: "@ + f.id + ")"@);
    } else {
        assert(read(line.pieces, path) =~= "  - "@ + f.filename + " (id: "@ + f.id
            + ", depends on: ["@ + join(f.dependencies, ", "@) + "])"@);
    }
}

/// For a terminal there is one line for each finding, in turn, with the file and the message,
/// and a last one with their number. Without findings there is one line that says so. All are
/// for the standard output.
pub proof fn law_findings_on_a_terminal(issues: Seq<IssueView>, path: Seq<char>, k: int)
    ensures
        ({
            let lines = text_lines(issues);
            &&& lines.len() == issues.len() + 1
            &&& issues.len() == 0 ==> read(lines[0].pieces, path) == "✅"@
                + " All migration fragments passed lint checks."@
            &&& 0 <= k < issues.len() ==> read(lines[k].pieces, path) == "❌"@ + " "@
                + issues[k].filename + ": "@ + issues[k].message
            &&& issues.len() > 0 ==> read(lines.last().pieces, path) == "\n"@ + "❌"@
                + " Migration fragment lint failed with "@ + decimal(issues.len()) + " error(s)."@
            &&& forall|j: int| 0 <= j < lines.len() ==> (#[trigger] lines[j]).stream is Output
        }),
{
    let lines = text_lines(issues);
    reveal_with_fuel(read_first, 9);
    if issues.len() == 0 {
        assert(read(lines[0].pieces, path) =~= "✅"@
            + " All migration fragments passed lint checks."@);
    } else {
        assert(read(lines.last().pieces, path) =~= "\n"@ + "❌"@
            + " Migration fragment lint failed with "@ + decimal(issues.len()) + " error(s)."@);
        if 0 <= k < issues.len() {
            assert(read(lines[k].pieces, path) =~= "❌"@ + " "@ + issues[k].filename + ": "@
                + issues[k].message);
        }
    }
}

/// As annotations each finding gives two lines, in turn: one for the standard output that
/// names the whole path, and one for the errors. The last line, with their number, is for the
/// errors too. Without findings there is one line, for the standard output.
pub proof fn law_findings_as_annotations(issues: Seq<IssueView>, path: Seq<char>, k: int)
    ensures
        ({
            let lines = github_lines(issues);
            &&& lines.len() == 2 * issues.len() + 1
            &&& issues.len() == 0 ==> lines[0].stream is Output && read(lines[0].pieces, path)
                == "✅ All migration fragments passed lint checks."@
            &&& 0 <= k < issues.len() ==> {
                &&& lines[2 * k].stream is Output
                &&& read(lines[2 * k].pieces, path) == "::error file="@ + issues[k].file + "::"@
                    + issues[k].message
                &&& lines[2 * k + 1].stream is Errors
                &&& read(lines[2 * k + 1].pieces, path) == "❌ "@ + issues[k].filename + ": "@
                    + issues[k].message
            }
            &&& issues.len() > 0 ==> lines.last().stream is Errors && read(
                lines.last().pieces,
                path,
            ) == "\n❌ Migration fragment lint failed with "@ + decimal(issues.len())
                + " error(s)."@
        }),
{
    let lines = github_lines(issues);
    reveal_with_fuel(read_first, 9);
    lemma_annotation_lines(issues, issues.len(), k);
    if issues.len() == 0 {
        assert(read(lines[0].pieces, path) =~= "✅ All migration fragments passed lint checks."@);
    } else {
        assert(read(lines.last().pieces, path) =~= "\n❌ Migration fragment lint failed with "@
            + decimal(issues.len()) + " error(s)."@);
        if 0 <= k < issues.len() {
            assert(lines[2 * k] == annotation_line(issues[k]));
            assert(lines[2 * k + 1] == annotation_note(issues[k]));
            assert(read(lines[2 * k].pieces, path) =~= "::error file="@ + issues[k].file + "::"@
                + issues[k].message);
            assert(read(lines[2 * k + 1].pieces, path) =~= "❌ "@ + issues[k].filename + ": "@
                + issues[k].message);
        }
    }
}

proof fn lemma_annotation_lines(issues: Seq<IssueView>, n: nat, k: int)
    requires
        n <= issues.len(),
    ensures
        annotation_lines(issues, n).len() == 2 * n,
        0 <= k < n ==> annotation_lines(issues, n)[2 * k] == annotation_line(issues[k])
            && annotation_lines(issues, n)[2 * k + 1] == annotation_note(issues[k]),
    decreases n,
{
    if n > 0 {
        lemma_annotation_lines(issues, (n - 1) as nat, k);
    }
}

/// The contents of lines are all of their pieces, each in its place and in its style.
pub proof fn law_line_contents(v: Seq<Line>, i: int, k: int)
    requires
        0 <= i < v.len(),
    ensures
        line_views(v).len() == v.len(),
        line_views(v)[i].stream == v[i].stream,
        line_views(v)[i].pieces.len() == v[i].pieces@.len(),
        0 <= k < v[i].pieces@.len() ==> match v[i].pieces@[k] {
            Piece::Text(style, text) => line_views(v)[i].pieces[k] == PieceView::Text(style, text@),
            Piece::OutputPath => line_views(v)[i].pieces[k] is OutputPath,
        },
{
}

}

//! The herdr command line: what is asked of it and what its answers mean.

use vstd::prelude::*;
use vstd::string::*;

use crate::text::{decimal, decimal_of, law_trimmed, str_eq, trim_of, trimmed, white};

verus! {

/// The name of the herdr program.
pub const HERDR_BIN: &'static str = "herdr";

/// Where this program runs.
#[derive(Debug)]
pub struct Context {
    pub pane_id: String,
    pub tab_id: String,
    pub workspace_id: String,
}

/// A pane of the current tab.
#[derive(Debug)]
pub struct PaneInfo {
    pub pane_id: String,
    pub agent: Option<String>,
    pub agent_status: Option<String>,
    pub title: Option<String>,
    pub cwd: Option<String>,
    /// Whether this program runs in the pane.
    pub is_self: bool,
}

/// A pane as herdr reports it.
#[derive(Debug)]
pub struct PaneFields {
    pub pane_id: String,
    pub tab_id: String,
    pub workspace_id: String,
    pub agent: Option<String>,
    pub agent_status: Option<String>,
    pub terminal_title_stripped: Option<String>,
    pub cwd: Option<String>,
}

fn copy_opt(s: &Option<String>) -> (r: Option<String>)
    ensures
        r == *s,
{
    match s {
        Some(x) => Some(x.clone()),
        None => None,
    }
}

impl Clone for Context {
    fn clone(&self) -> (r: Context)
        ensures
            r == *self,
    {
        Context {
            pane_id: self.pane_id.clone(),
            tab_id: self.tab_id.clone(),
            workspace_id: self.workspace_id.clone(),
        }
    }
}

impl Clone for PaneInfo {
    fn clone(&self) -> (r: PaneInfo)
        ensures
            r == *self,
    {
        PaneInfo {
            pane_id: self.pane_id.clone(),
            agent: copy_opt(&self.agent),
            agent_status: copy_opt(&self.agent_status),
            title: copy_opt(&self.title),
            cwd: copy_opt(&self.cwd),
            is_self: self.is_self,
        }
    }
}

/// The text that `String::from_utf8_lossy` reads from bytes.
pub uninterp spec fn utf8_lossy(bytes: Seq<u8>) -> Seq<char>;

/// `String::from_utf8_lossy`, which replaces what is not UTF-8 and depends on
/// the bytes alone: its result is named `utf8_lossy`.
#[verifier::external_body]
pub(crate) fn lossy(bytes: &[u8]) -> (r: String)
    ensures
        r@ == utf8_lossy(bytes@),
{
    String::from_utf8_lossy(bytes).into_owned()
}

/// Words with a blank between each two.
pub open spec fn spaced(words: Seq<Seq<char>>) -> Seq<char>
    decreases words.len(),
{
    if words.len() == 0 {
        Seq::empty()
    } else if words.len() == 1 {
        words[0]
    } else {
        spaced(words.drop_last()) + seq![' '] + words.last()
    }
}

fn join_words(words: &[String]) -> (r: String)
    ensures
        r@ == spaced(words.deep_view()),
{
    let ghost all = words.deep_view();
    let mut out = String::new();
    let mut i: usize = 0;
    while i < words.len()
        invariant
            i <= words@.len(),
            all == words.deep_view(),
            out@ == spaced(all.take(i as int)),
        decreases words@.len() - i,
    {
        proof {
            assert(all.take(i + 1).drop_last() =~= all.take(i as int));
            assert(all.take(i + 1).last() == words@[i as int]@);
        }
        if i > 0 {
            out.push(' ');
            out.append(words[i].as_str());
            assert(out@ =~= spaced(all.take(i as int)) + seq![' '] + words@[i as int]@);
        } else {
            out.append(words[i].as_str());
            assert(out@ =~= words@[i as int]@);
        }
        i += 1;
    }
    assert(all.take(i as int) =~= all);
    out
}

/// The arguments that type `text` into a pane.
pub fn send_text(pane_id: &str, text: &str) -> (r: Vec<String>)
    ensures
        r.deep_view() == seq!["pane"@, "send-text"@, pane_id@, text@],
{
    let mut args: Vec<String> = Vec::new();
    args.push("pane".to_string());
    args.push("send-text".to_string());
    args.push(pane_id.to_owned());
    args.push(text.to_owned());
    assert(args.deep_view() =~= seq!["pane"@, "send-text"@, pane_id@, text@]);
    args
}

/// The arguments that press `key` in a pane.
pub fn send_key(pane_id: &str, key: &str) -> (r: Vec<String>)
    ensures
        r.deep_view() == seq!["pane"@, "send-keys"@, pane_id@, key@],
{
    let mut args: Vec<String> = Vec::new();
    args.push("pane".to_string());
    args.push("send-keys".to_string());
    args.push(pane_id.to_owned());
    args.push(key.to_owned());
    assert(args.deep_view() =~= seq!["pane"@, "send-keys"@, pane_id@, key@]);
    args
}

/// The arguments that read the visible text of a pane, `lines` lines at most.
pub fn read_visible(pane_id: &str, lines: usize) -> (r: Vec<String>)
    ensures
        r.deep_view() == seq![
            "pane"@,
            "read"@,
            pane_id@,
            "--source"@,
            "visible"@,
            "--lines"@,
            decimal(lines as nat),
            "--format"@,
            "text"@,
        ],
{
    let mut args: Vec<String> = Vec::new();
    args.push("pane".to_string());
    args.push("read".to_string());
    args.push(pane_id.to_owned());
    args.push("--source".to_string());
    args.push("visible".to_string());
    args.push("--lines".to_string());
    args.push(decimal_of(lines as u64));
    args.push("--format".to_string());
    args.push("text".to_string());
    assert(args.deep_view() =~= seq![
        "pane"@,
        "read"@,
        pane_id@,
        "--source"@,
        "visible"@,
        "--lines"@,
        decimal(lines as nat),
        "--format"@,
        "text"@,
    ]);
    args
}

/// The arguments that ask for the pane in which this program runs.
pub fn current_args() -> (r: Vec<String>)
    ensures
        r.deep_view() == seq!["pane"@, "current"@, "--current"@],
{
    let mut args: Vec<String> = Vec::new();
    args.push("pane".to_string());
    args.push("current".to_string());
    args.push("--current".to_string());
    assert(args.deep_view() =~= seq!["pane"@, "current"@, "--current"@]);
    args
}

/// The arguments that ask for the panes of the workspace.
pub fn list_args(ctx: &Context) -> (r: Vec<String>)
    ensures
        r.deep_view() == seq!["pane"@, "list"@, "--workspace"@, ctx.workspace_id@],
{
    let mut args: Vec<String> = Vec::new();
    args.push("pane".to_string());
    args.push("list".to_string());
    args.push("--workspace".to_string());
    args.push(ctx.workspace_id.clone());
    assert(args.deep_view() =~= seq!["pane"@, "list"@, "--workspace"@, ctx.workspace_id@]);
    args
}

/// What to say if herdr failed: its error output without the white space at
/// both ends.
pub open spec fn complaint(stderr: Seq<u8>) -> Seq<char> {
    trimmed(utf8_lossy(stderr))
}

/// Judges a run of herdr that returns no value: `Err` with its error output if
/// it failed.
pub fn spawn(success: bool, stderr: &[u8]) -> (r: Result<(), String>)
    ensures
        r is Ok <==> success,
        r matches Err(e) ==> e@ == complaint(stderr@),
{
    if success {
        Ok(())
    } else {
        let text = lossy(stderr);
        Err(trim_of(text.as_str()))
    }
}

/// Judges a run of herdr that returns a text: the text, or `Err` with the error
/// output if it failed.
pub fn visible_text(success: bool, stdout: &[u8], stderr: &[u8]) -> (r: Result<String, String>)
    ensures
        r is Ok <==> success,
        r matches Ok(t) ==> t@ == utf8_lossy(stdout@),
        r matches Err(e) ==> e@ == complaint(stderr@),
{
    match spawn(success, stderr) {
        Ok(_) => Ok(lossy(stdout)),
        Err(e) => Err(e),
    }
}

/// Judges a run of herdr with `args` that returns JSON: `Err` names the command
/// and gives the error output if it failed.
pub fn run_json(args: &[String], success: bool, stderr: &[u8]) -> (r: Result<(), String>)
    ensures
        r is Ok <==> success,
        r matches Err(e) ==> e@ == HERDR_BIN@ + " "@ + spaced(args.deep_view()) + " failed: "@
            + complaint(stderr@),
{
    match spawn(success, stderr) {
        Ok(_) => Ok(()),
        Err(e) => {
            let mut out = HERDR_BIN.to_string();
            out.append(" ");
            let words = join_words(args);
            out.append(words.as_str());
            out.append(" failed: ");
            out.append(e.as_str());
            Err(out)
        },
    }
}

/// How to find out where this program runs.
#[derive(Debug)]
pub enum ContextSource {
    /// The environment says it.
    Known(Context),
    /// herdr has to be asked.
    Ask,
    /// Not at all: the program does not run inside of a herdr pane.
    Outside,
}

/// Whether an environment variable is set to a text.
pub open spec fn given(v: Option<String>) -> bool {
    v matches Some(s) && s@.len() > 0
}

fn is_given(v: &Option<String>) -> (r: bool)
    ensures
        r == given(*v),
{
    match v {
        Some(s) => !s.as_str().is_empty(),
        None => false,
    }
}

/// Where the context comes from: from the environment if it names the pane, the
/// tab and the workspace, else from herdr if the program runs inside of it.
pub open spec fn context_source(
    pane_id: Option<String>,
    tab_id: Option<String>,
    workspace_id: Option<String>,
    inside: bool,
) -> ContextSource {
    if given(pane_id) && given(tab_id) && given(workspace_id) {
        ContextSource::Known(
            Context { pane_id: pane_id->0, tab_id: tab_id->0, workspace_id: workspace_id->0 },
        )
    } else if inside {
        ContextSource::Ask
    } else {
        ContextSource::Outside
    }
}

/// Decides where the context comes from.
pub fn resolve_context(
    pane_id: Option<String>,
    tab_id: Option<String>,
    workspace_id: Option<String>,
    inside: bool,
) -> (r: ContextSource)
    ensures
        r == context_source(pane_id, tab_id, workspace_id, inside),
{
    if is_given(&pane_id) && is_given(&tab_id) && is_given(&workspace_id) {
        match (pane_id, tab_id, workspace_id) {
            (Some(pane_id), Some(tab_id), Some(workspace_id)) => {
                return ContextSource::Known(Context { pane_id, tab_id, workspace_id });
            },
            _ => (),
        }
    }
    if inside {
        ContextSource::Ask
    } else {
        ContextSource::Outside
    }
}

/// The context of the pane that herdr reports as the current one.
pub fn context_of(pane: PaneFields) -> (r: Context)
    ensures
        r == (Context {
            pane_id: pane.pane_id,
            tab_id: pane.tab_id,
            workspace_id: pane.workspace_id,
        }),
{
    Context { pane_id: pane.pane_id, tab_id: pane.tab_id, workspace_id: pane.workspace_id }
}

/// What is kept of a reported pane.
pub open spec fn info(ctx: Context, p: PaneFields) -> PaneInfo {
    PaneInfo {
        pane_id: p.pane_id,
        agent: p.agent,
        agent_status: p.agent_status,
        title: p.terminal_title_stripped,
        cwd: p.cwd,
        is_self: p.pane_id@ == ctx.pane_id@,
    }
}

/// Whether a pane belongs to the current tab and is, or is not, the one in
/// which this program runs.
pub open spec fn in_tab(ctx: Context, own: bool) -> spec_fn(PaneFields) -> bool {
    |p: PaneFields| p.tab_id@ == ctx.tab_id@ && (p.pane_id@ == ctx.pane_id@) == own
}

/// The panes of the current tab in the order of the report, with the pane in
/// which this program runs at the end.
pub open spec fn listed(ctx: Context, panes: Seq<PaneFields>) -> Seq<PaneInfo> {
    panes.filter(in_tab(ctx, false)).map_values(|p: PaneFields| info(ctx, p)) + panes.filter(
        in_tab(ctx, true),
    ).map_values(|p: PaneFields| info(ctx, p))
}

fn info_of(ctx: &Context, p: &PaneFields) -> (r: PaneInfo)
    ensures
        r == info(*ctx, *p),
{
    PaneInfo {
        is_self: str_eq(p.pane_id.as_str(), ctx.pane_id.as_str()),
        pane_id: p.pane_id.clone(),
        agent: copy_opt(&p.agent),
        agent_status: copy_opt(&p.agent_status),
        title: copy_opt(&p.terminal_title_stripped),
        cwd: copy_opt(&p.cwd),
    }
}

/// Appends the panes of the tab that are, or are not, the own one.
fn push_listed(out: &mut Vec<PaneInfo>, ctx: &Context, panes: &[PaneFields], own: bool)
    ensures
        final(out)@ == old(out)@ + panes@.filter(in_tab(*ctx, own)).map_values(
            |p: PaneFields| info(*ctx, p),
        ),
{
    let ghost keep = in_tab(*ctx, own);
    let ghost f = |p: PaneFields| info(*ctx, p);
    let ghost first = out@;
    let mut i: usize = 0;
    proof {
        reveal(Seq::filter);
        assert(panes@.take(0).filter(keep) =~= Seq::<PaneFields>::empty());
        assert(out@ =~= first + panes@.take(0).filter(keep).map_values(f));
    }
    while i < panes.len()
        invariant
            i <= panes@.len(),
            keep == in_tab(*ctx, own),
            f == (|p: PaneFields| info(*ctx, p)),
            out@ == first + panes@.take(i as int).filter(keep).map_values(f),
        decreases panes@.len() - i,
    {
        let p = &panes[i];
        let ghost before = panes@.take(i as int).filter(keep);
        proof {
            reveal(Seq::filter);
            assert(panes@.take(i + 1).drop_last() =~= panes@.take(i as int));
            assert(panes@.take(i + 1).last() == *p);
        }
        let mine = str_eq(p.pane_id.as_str(), ctx.pane_id.as_str());
        if str_eq(p.tab_id.as_str(), ctx.tab_id.as_str()) && mine == own {
            out.push(info_of(ctx, p));
            assert(before.push(*p).map_values(f) =~= before.map_values(f).push(info(*ctx, *p)));
        }
        i += 1;
    }
    assert(panes@.take(i as int) =~= panes@);
}

/// The panes of the current tab, given all panes of the workspace.
pub fn list_tab_panes(ctx: &Context, panes: &[PaneFields]) -> (r: Vec<PaneInfo>)
    ensures
        r@ == listed(*ctx, panes@),
{
    let mut out: Vec<PaneInfo> = Vec::new();
    push_listed(&mut out, ctx, panes, false);
    push_listed(&mut out, ctx, panes, true);
    assert(out@ =~= listed(*ctx, panes@));
    out
}

/// The panes that are not the own one.
pub open spec fn others(panes: Seq<PaneInfo>) -> Seq<PaneInfo> {
    panes.filter(|p: PaneInfo| !p.is_self)
}

/// The panes to broadcast to: all but the own one. `Err` if there is none.
pub fn broadcast_targets(ctx: &Context, panes: &[PaneInfo]) -> (r: Result<Vec<PaneInfo>, String>)
    ensures
        r is Ok <==> others(panes@).len() > 0,
        r matches Ok(v) ==> v@ == others(panes@),
        r matches Err(e) ==> e@ == "no other panes in tab "@ + ctx.tab_id@
            + " — nothing to broadcast to"@,
{
    let ghost keep = |p: PaneInfo| !p.is_self;
    let mut out: Vec<PaneInfo> = Vec::new();
    let mut i: usize = 0;
    assert(panes@.take(0).filter(keep) =~= Seq::<PaneInfo>::empty()) by {
        reveal(Seq::filter);
    }
    while i < panes.len()
        invariant
            i <= panes@.len(),
            keep == (|p: PaneInfo| !p.is_self),
            out@ == panes@.take(i as int).filter(keep),
        decreases panes@.len() - i,
    {
        proof {
            reveal(Seq::filter);
            assert(panes@.take(i + 1).drop_last() =~= panes@.take(i as int));
        }
        if !panes[i].is_self {
            out.push(panes[i].clone());
        }
        i += 1;
    }
    assert(panes@.take(i as int) =~= panes@);
    if out.len() == 0 {
        let mut e = "no other panes in tab ".to_string();
        e.append(ctx.tab_id.as_str());
        e.append(" — nothing to broadcast to");
        return Err(e);
    }
    Ok(out)
}

/// The label of a pane: its id and the agent that runs in it, or `shell`.
pub open spec fn label(p: PaneInfo) -> Seq<char> {
    p.pane_id@ + " "@ + match p.agent {
        Some(a) => a@,
        None => "shell"@,
    }
}

/// The label of a pane.
pub fn label_of(p: &PaneInfo) -> (r: String)
    ensures
        r@ == label(*p),
{
    let mut out = p.pane_id.clone();
    out.append(" ");
    match &p.agent {
        Some(a) => out.append(a.as_str()),
        None => out.append("shell"),
    }
    out
}

/// The panes to broadcast to are the panes of the tab but the own one, in the
/// order of the report.
pub proof fn law_targets(ctx: Context, panes: Seq<PaneFields>)
    ensures
        others(listed(ctx, panes)) == panes.filter(in_tab(ctx, false)).map_values(
            |p: PaneFields| info(ctx, p),
        ),
{
    broadcast use vstd::seq_lib::group_filter_ensures;

    let f = |p: PaneFields| info(ctx, p);
    let keep = |p: PaneInfo| !p.is_self;
    let a = panes.filter(in_tab(ctx, false));
    let b = panes.filter(in_tab(ctx, true));
    let x = a.map_values(f);
    let y = b.map_values(f);
    assert forall|i: int| 0 <= i < x.len() implies keep(#[trigger] x[i]) by {
        assert(a.contains(a[i]));
        assert(in_tab(ctx, false)(a[i]));
    }
    assert forall|i: int| 0 <= i < y.len() implies !keep(#[trigger] y[i]) by {
        assert(b.contains(b[i]));
        assert(in_tab(ctx, true)(b[i]));
    }
    lemma_filter_all(x, keep);
    lemma_filter_none(y, keep);
    Seq::filter_distributes_over_add(x, y, keep);
    assert(x + Seq::<PaneInfo>::empty() =~= x);
}

proof fn lemma_filter_all(s: Seq<PaneInfo>, keep: spec_fn(PaneInfo) -> bool)
    requires
        forall|i: int| 0 <= i < s.len() ==> keep(#[trigger] s[i]),
    ensures
        s.filter(keep) == s,
    decreases s.len(),
{
    reveal(Seq::filter);
    if s.len() > 0 {
        lemma_filter_all(s.drop_last(), keep);
        assert(s.drop_last().push(s.last()) =~= s);
    } else {
        assert(s.filter(keep) =~= s);
    }
}

proof fn lemma_filter_none(s: Seq<PaneInfo>, keep: spec_fn(PaneInfo) -> bool)
    requires
        forall|i: int| 0 <= i < s.len() ==> !keep(#[trigger] s[i]),
    ensures
        s.filter(keep) == Seq::<PaneInfo>::empty(),
    decreases s.len(),
{
    reveal(Seq::filter);
    if s.len() > 0 {
        lemma_filter_none(s.drop_last(), keep);
    }
}

/// Between each two words stands one blank, and nothing else.
pub proof fn law_spaced(words: Seq<Seq<char>>, word: Seq<char>)
    ensures
        spaced(Seq::empty()) == Seq::<char>::empty(),
        spaced(seq![word]) == word,
        words.len() > 0 ==> spaced(words.push(word)) == spaced(words) + seq![' '] + word,
{
    assert(words.push(word).drop_last() =~= words);
}

/// What herdr complains about is its error output without the white space around
/// it.
pub proof fn law_complaint(stderr: Seq<u8>, before: Seq<char>, s: Seq<char>, after: Seq<char>)
    requires
        utf8_lossy(stderr) == before + s + after,
        forall|i: int| 0 <= i < before.len() ==> white(#[trigger] before[i]),
        forall|i: int| 0 <= i < after.len() ==> white(#[trigger] after[i]),
        s.len() > 0,
        !white(s[0]),
        !white(s.last()),
    ensures
        complaint(stderr) == s,
{
    law_trimmed(before, s, after);
}

/// An environment variable counts only if it is set and not empty.
pub proof fn law_given(s: String)
    ensures
        !given(None),
        given(Some(s)) <==> s@.len() > 0,
{
}

/// What is kept of a reported pane is what was reported, and whether it is the
/// pane in which this program runs.
pub proof fn law_info(ctx: Context, p: PaneFields)
    ensures
        info(ctx, p).pane_id == p.pane_id,
        info(ctx, p).agent == p.agent,
        info(ctx, p).agent_status == p.agent_status,
        info(ctx, p).title == p.terminal_title_stripped,
        info(ctx, p).cwd == p.cwd,
        info(ctx, p).is_self <==> p.pane_id@ == ctx.pane_id@,
{
}

/// The label of a pane is its id and what runs in it.
pub proof fn law_label(p: PaneInfo)
    ensures
        p.agent matches Some(a) ==> label(p) == p.pane_id@ + " "@ + a@,
        p.agent is None ==> label(p) == p.pane_id@ + " "@ + "shell"@,
{
}

proof fn lemma_filter_push<A>(s: Seq<A>, x: A, keep: spec_fn(A) -> bool)
    ensures
        s.push(x).filter(keep) == if keep(x) {
            s.filter(keep).push(x)
        } else {
            s.filter(keep)
        },
{
    reveal(Seq::filter);
    assert(s.push(x).drop_last() =~= s);
}

proof fn lemma_own_panes_are_last(ctx: Context, panes: Seq<PaneFields>)
    ensures
        ({
            let list = listed(ctx, panes);
            let n = panes.filter(in_tab(ctx, false)).len() as int;
            &&& others(list).len() == n
            &&& forall|i: int| 0 <= i < n ==> !(#[trigger] list[i]).is_self
            &&& forall|i: int| n <= i < list.len() ==> (#[trigger] list[i]).is_self
        }),
{
    broadcast use vstd::seq_lib::group_filter_ensures;

    let a = panes.filter(in_tab(ctx, false));
    let b = panes.filter(in_tab(ctx, true));
    let list = listed(ctx, panes);
    let n = a.len() as int;
    law_targets(ctx, panes);
    assert forall|i: int| 0 <= i < n implies !(#[trigger] list[i]).is_self by {
        assert(in_tab(ctx, false)(a[i]));
    }
    assert forall|i: int| n <= i < list.len() implies (#[trigger] list[i]).is_self by {
        assert(in_tab(ctx, true)(b[i - n]));
    }
}

/// The own pane is at the end of the list, behind all others.
pub proof fn law_own_pane_is_last(ctx: Context, panes: Seq<PaneFields>, i: int, j: int)
    requires
        0 <= i < listed(ctx, panes).len(),
        0 <= j < listed(ctx, panes).len(),
        listed(ctx, panes)[i].is_self,
        !listed(ctx, panes)[j].is_self,
    ensures
        j < i,
{
    lemma_own_panes_are_last(ctx, panes);
}

/// A pane of another tab is not listed. A pane of the tab is listed behind all
/// that were reported before it, but before the own one.
pub proof fn law_panes_are_listed_one_by_one(ctx: Context, panes: Seq<PaneFields>, p: PaneFields)
    ensures
        ({
            let list = listed(ctx, panes);
            let next = listed(ctx, panes.push(p));
            let n = others(list).len() as int;
            &&& p.tab_id@ != ctx.tab_id@ ==> next == list
            &&& p.tab_id@ == ctx.tab_id@ && p.pane_id@ == ctx.pane_id@ ==> next == list.push(
                info(ctx, p),
            )
            &&& p.tab_id@ == ctx.tab_id@ && p.pane_id@ != ctx.pane_id@ ==> next == list.take(n).push(
                info(ctx, p),
            ) + list.skip(n)
        }),
{
    let f = |p: PaneFields| info(ctx, p);
    let a = panes.filter(in_tab(ctx, false));
    let b = panes.filter(in_tab(ctx, true));
    let x = a.map_values(f);
    let y = b.map_values(f);
    let list = listed(ctx, panes);
    let next = listed(ctx, panes.push(p));
    assert(others(list).len() == a.len()) by {
        lemma_own_panes_are_last(ctx, panes);
    }
    lemma_filter_push(panes, p, in_tab(ctx, false));
    lemma_filter_push(panes, p, in_tab(ctx, true));
    if p.tab_id@ == ctx.tab_id@ && p.pane_id@ == ctx.pane_id@ {
        assert(b.push(p).map_values(f) =~= y.push(info(ctx, p)));
        assert(x + y.push(info(ctx, p)) =~= (x + y).push(info(ctx, p)));
    }
    if p.tab_id@ == ctx.tab_id@ && p.pane_id@ != ctx.pane_id@ {
        let n = a.len() as int;
        assert(a.push(p).map_values(f) =~= x.push(info(ctx, p)));
        assert(list.take(n) =~= x);
        assert(list.skip(n) =~= y);
    }
}

/// Where no pane is reported, none is listed.
pub proof fn law_no_panes_are_listed(ctx: Context)
    ensures
        listed(ctx, Seq::empty()) == Seq::<PaneInfo>::empty(),
{
    reveal(Seq::filter);
    assert(listed(ctx, Seq::empty()) =~= Seq::<PaneInfo>::empty());
}

/// The panes to broadcast to are those that are not the own one, in their order.
pub proof fn law_others(panes: Seq<PaneInfo>, p: PaneInfo)
    ensures
        others(Seq::empty()) == Seq::<PaneInfo>::empty(),
        p.is_self ==> others(panes.push(p)) == others(panes),
        !p.is_self ==> others(panes.push(p)) == others(panes).push(p),
{
    lemma_filter_push(panes, p, |p: PaneInfo| !p.is_self);
    reveal(Seq::filter);
}

/// The environment is believed if it names all three, wherever the program runs.
/// If one of them is missing or empty, herdr is asked, and where there is no herdr
/// the context cannot be known.
pub proof fn law_context_source(
    pane: String,
    tab: String,
    workspace: String,
    a: Option<String>,
    b: Option<String>,
    c: Option<String>,
    inside: bool,
)
    ensures
        pane@.len() > 0 && tab@.len() > 0 && workspace@.len() > 0 ==> context_source(
            Some(pane),
            Some(tab),
            Some(workspace),
            inside,
        ) == ContextSource::Known(
            Context { pane_id: pane, tab_id: tab, workspace_id: workspace },
        ),
        a is None || b is None || c is None || a->0@.len() == 0 || b->0@.len() == 0 || c->0@.len()
            == 0 ==> context_source(a, b, c, true) is Ask && context_source(a, b, c, false) is Outside,
{
}

} // verus!

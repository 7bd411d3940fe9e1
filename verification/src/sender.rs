//! Sending what was typed to the panes.

use vstd::prelude::*;
use vstd::string::*;

use crate::herdr::{send_key, send_text};
use crate::input::{InputMsg, InputView};
use crate::line::opt_text;

verus! {

/// The characters of a text as strokes: a stroke is a text of one character, or
/// a key.
pub open spec fn char_strokes(s: Seq<char>) -> Seq<InputView> {
    s.map_values(|c: char| InputView::Text(seq![c]))
}

/// Keys as strokes.
pub open spec fn key_strokes(keys: Seq<Seq<char>>) -> Seq<InputView> {
    keys.map_values(|k: Seq<char>| InputView::Key(k))
}

/// A message as strokes.
pub open spec fn strokes(msg: InputView) -> Seq<InputView> {
    match msg {
        InputView::Text(s) => char_strokes(s),
        InputView::Key(k) => seq![InputView::Key(k)],
    }
}

/// The strokes that are sent together: a text, and then keys.
#[derive(Debug)]
pub struct Batch {
    pub text: String,
    pub keys: Vec<&'static str>,
}

/// The model of a `Batch`.
#[verifier::ext_equal]
pub struct BatchView {
    pub text: Seq<char>,
    pub keys: Seq<Seq<char>>,
}

/// The model of a list of key names.
pub open spec fn names(keys: Seq<&'static str>) -> Seq<Seq<char>> {
    Seq::new(keys.len(), |i: int| keys[i]@)
}

impl View for Batch {
    type V = BatchView;

    open spec fn view(&self) -> BatchView {
        BatchView { text: self.text@, keys: names(self.keys@) }
    }
}

impl BatchView {
    /// The batch with nothing in it.
    pub open spec fn empty() -> BatchView {
        BatchView { text: Seq::empty(), keys: Seq::empty() }
    }

    /// The strokes in the order in which they are sent.
    pub open spec fn strokes(self) -> Seq<InputView> {
        char_strokes(self.text) + key_strokes(self.keys)
    }

    /// What is sent: the text, if there is one, and then the keys one by one.
    pub open spec fn messages(self) -> Seq<InputView> {
        let text = if self.text.len() == 0 {
            Seq::empty()
        } else {
            seq![InputView::Text(self.text)]
        };
        text + key_strokes(self.keys)
    }
}

/// The model of a list of messages.
pub open spec fn inputs(msgs: Seq<InputMsg>) -> Seq<InputView> {
    msgs.map_values(|m: InputMsg| m@)
}

impl Batch {
    /// What is sent: the text, if there is one, and then the keys one by one.
    pub fn messages(self) -> (r: Vec<InputMsg>)
        ensures
            inputs(r@) == self@.messages(),
    {
        let ghost whole = self@;
        let mut out: Vec<InputMsg> = Vec::new();
        if !self.text.as_str().is_empty() {
            out.push(InputMsg::Text(self.text));
        }
        let ghost text = inputs(out@);
        let mut i: usize = 0;
        assert(text + key_strokes(whole.keys.take(0)) =~= text);
        while i < self.keys.len()
            invariant
                i <= self.keys@.len(),
                whole.keys == names(self.keys@),
                inputs(out@) == text + key_strokes(whole.keys.take(i as int)),
            decreases self.keys@.len() - i,
        {
            let ghost before = out@;
            out.push(InputMsg::Key(self.keys[i]));
            assert(inputs(out@) =~= inputs(before).push(InputView::Key(whole.keys[i as int])));
            assert(key_strokes(whole.keys.take(i + 1)) =~= key_strokes(
                whole.keys.take(i as int),
            ).push(InputView::Key(whole.keys[i as int])));
            i += 1;
        }
        assert(whole.keys.take(i as int) =~= whole.keys);
        assert(inputs(out@) =~= whole.messages());
        out
    }
}

/// Collects strokes that come shortly one after the other. A text that comes
/// behind a key cannot go into the same batch: it is held for the next one.
#[derive(Debug)]
pub struct Outbox {
    batch: Batch,
    held: Option<String>,
}

/// The model of an `Outbox`.
#[verifier::ext_equal]
pub struct OutboxView {
    pub batch: BatchView,
    pub held: Option<Seq<char>>,
}

impl View for Outbox {
    type V = OutboxView;

    closed spec fn view(&self) -> OutboxView {
        OutboxView { batch: self.batch@, held: opt_text(self.held) }
    }
}

impl OutboxView {
    /// The outbox with nothing in it.
    pub open spec fn empty() -> OutboxView {
        OutboxView { batch: BatchView::empty(), held: None }
    }

    /// Whether there is nothing to be sent.
    pub open spec fn is_empty(self) -> bool {
        self.batch.text.len() == 0 && self.batch.keys.len() == 0
    }

    /// Whether the batch takes no more: a text is held, or a key came behind
    /// something else.
    pub open spec fn complete(self) -> bool {
        self.held is Some || self.batch.keys.len() > 1 || (self.batch.keys.len() == 1
            && self.batch.text.len() > 0)
    }

    /// The text that is held, if any.
    pub open spec fn held_text(self) -> Seq<char> {
        match self.held {
            Some(s) => s,
            None => Seq::empty(),
        }
    }

    /// All strokes that are still to be sent, in their order.
    pub open spec fn pending(self) -> Seq<InputView> {
        self.batch.strokes() + char_strokes(self.held_text())
    }

    /// The outbox after a message.
    pub open spec fn offered(self, msg: InputView) -> OutboxView {
        match msg {
            InputView::Text(s) => if self.batch.keys.len() > 0 {
                OutboxView { held: Some(s), ..self }
            } else {
                OutboxView {
                    batch: BatchView { text: self.batch.text + s, ..self.batch },
                    ..self
                }
            },
            InputView::Key(k) => OutboxView {
                batch: BatchView { keys: self.batch.keys.push(k), ..self.batch },
                ..self
            },
        }
    }

    /// The outbox after its batch was taken out.
    pub open spec fn flushed(self) -> OutboxView {
        OutboxView {
            batch: BatchView { text: self.held_text(), keys: Seq::empty() },
            held: None,
        }
    }
}

impl Outbox {
    /// An outbox with nothing in it.
    pub fn new() -> (r: Outbox)
        ensures
            r@ == OutboxView::empty(),
    {
        let r = Outbox { batch: Batch { text: String::new(), keys: Vec::new() }, held: None };
        assert(r@ =~= OutboxView::empty());
        r
    }

    /// Whether there is nothing to be sent.
    pub fn is_empty(&self) -> (r: bool)
        ensures
            r == self@.is_empty(),
    {
        self.batch.text.as_str().is_empty() && self.batch.keys.len() == 0
    }

    /// Whether the batch takes no more and is to be sent.
    pub fn complete(&self) -> (r: bool)
        ensures
            r == self@.complete(),
    {
        self.held.is_some() || self.batch.keys.len() > 1 || (self.batch.keys.len() == 1
            && !self.batch.text.as_str().is_empty())
    }

    /// Takes a message in.
    pub fn offer(&mut self, msg: InputMsg)
        requires
            !old(self)@.complete(),
        ensures
            final(self)@ == old(self)@.offered(msg@),
    {
        match msg {
            InputMsg::Text(s) => {
                if self.batch.keys.len() > 0 {
                    self.held = Some(s);
                } else {
                    self.batch.text.append(s.as_str());
                }
            },
            InputMsg::Key(k) => {
                self.batch.keys.push(k);
            },
        }
        assert(self@ =~= old(self)@.offered(msg@));
    }

    /// Takes the batch out; a text that was held begins the next one.
    pub fn flush(&mut self) -> (r: Batch)
        ensures
            r@ == old(self)@.batch,
            final(self)@ == old(self)@.flushed(),
    {
        let held = match &self.held {
            Some(s) => s.clone(),
            None => String::new(),
        };
        self.held = None;
        let mut batch = Batch { text: held, keys: Vec::new() };
        std::mem::swap(&mut self.batch, &mut batch);
        assert(self@ =~= old(self)@.flushed());
        batch
    }
}

/// Taking a message in neither loses a stroke nor changes their order.
pub proof fn law_offer_keeps_strokes(o: OutboxView, msg: InputView)
    requires
        !o.complete(),
    ensures
        o.offered(msg).pending() == o.pending() + strokes(msg),
{
    assert(o.offered(msg).pending() =~= o.pending() + strokes(msg));
}

/// Taking the batch out neither loses a stroke nor changes their order, and the
/// outbox takes messages again.
pub proof fn law_flush_keeps_strokes(o: OutboxView)
    ensures
        o.batch.strokes() + o.flushed().pending() == o.pending(),
        !o.flushed().complete(),
        !o.is_empty() ==> o.batch.strokes().len() > 0,
{
    assert(o.batch.strokes() + o.flushed().pending() =~= o.pending());
}

/// The strokes of some messages.
pub open spec fn all_strokes(msgs: Seq<InputView>) -> Seq<InputView>
    decreases msgs.len(),
{
    if msgs.len() == 0 {
        Seq::empty()
    } else {
        all_strokes(msgs.drop_last()) + strokes(msgs.last())
    }
}

/// The messages of a batch hold its strokes and nothing else, in their order.
pub proof fn law_messages_are_the_strokes(batch: BatchView)
    ensures
        all_strokes(batch.messages()) == batch.strokes(),
    decreases batch.keys.len(),
{
    let msgs = batch.messages();
    if batch.keys.len() > 0 {
        let fewer = BatchView { keys: batch.keys.drop_last(), ..batch };
        law_messages_are_the_strokes(fewer);
        assert(msgs.drop_last() =~= fewer.messages());
        assert(msgs.last() == InputView::Key(batch.keys.last()));
        assert(batch.strokes() =~= fewer.strokes() + seq![InputView::Key(batch.keys.last())]);
    } else if batch.text.len() > 0 {
        assert(msgs =~= seq![InputView::Text(batch.text)]);
        assert(all_strokes(msgs.drop_last()) =~= Seq::empty());
        assert(batch.strokes() =~= char_strokes(batch.text));
        assert(all_strokes(msgs) =~= char_strokes(batch.text));
    } else {
        assert(batch.strokes() =~= Seq::empty());
    }
}

/// What happens to an outbox.
pub enum OutboxEvent {
    Offer(InputView),
    Flush,
}

/// An outbox after some events.
pub open spec fn after_events(events: Seq<OutboxEvent>) -> OutboxView
    decreases events.len(),
{
    if events.len() == 0 {
        OutboxView::empty()
    } else {
        let before = after_events(events.drop_last());
        match events.last() {
            OutboxEvent::Offer(msg) => before.offered(msg),
            OutboxEvent::Flush => before.flushed(),
        }
    }
}

/// Whether messages came only while the outbox took them.
pub open spec fn orderly(events: Seq<OutboxEvent>) -> bool
    decreases events.len(),
{
    events.len() == 0 || {
        &&& orderly(events.drop_last())
        &&& events.last() is Offer ==> !after_events(events.drop_last()).complete()
    }
}

/// The strokes that were taken out in some events.
pub open spec fn sent_strokes(events: Seq<OutboxEvent>) -> Seq<InputView>
    decreases events.len(),
{
    if events.len() == 0 {
        Seq::empty()
    } else {
        let before = sent_strokes(events.drop_last());
        match events.last() {
            OutboxEvent::Offer(_) => before,
            OutboxEvent::Flush => before + after_events(events.drop_last()).batch.strokes(),
        }
    }
}

/// The strokes that came in some events.
pub open spec fn typed_strokes(events: Seq<OutboxEvent>) -> Seq<InputView>
    decreases events.len(),
{
    if events.len() == 0 {
        Seq::empty()
    } else {
        let before = typed_strokes(events.drop_last());
        match events.last() {
            OutboxEvent::Offer(msg) => before + strokes(msg),
            OutboxEvent::Flush => before,
        }
    }
}

/// Whatever happens to an outbox, the strokes that were sent, followed by those
/// that are still to be sent, are the strokes that were typed: none is lost, none
/// is sent twice, and their order is kept.
pub proof fn law_every_stroke_is_sent_once(events: Seq<OutboxEvent>)
    requires
        orderly(events),
    ensures
        sent_strokes(events) + after_events(events).pending() == typed_strokes(events),
    decreases events.len(),
{
    if events.len() == 0 {
        assert(sent_strokes(events) + after_events(events).pending() =~= typed_strokes(events));
    } else {
        let before = events.drop_last();
        law_every_stroke_is_sent_once(before);
        let o = after_events(before);
        match events.last() {
            OutboxEvent::Offer(msg) => {
                law_offer_keeps_strokes(o, msg);
                assert(sent_strokes(before) + (o.pending() + strokes(msg)) =~= (sent_strokes(before)
                    + o.pending()) + strokes(msg));
            },
            OutboxEvent::Flush => {
                law_flush_keeps_strokes(o);
                assert((sent_strokes(before) + o.batch.strokes()) + o.flushed().pending()
                    =~= sent_strokes(before) + (o.batch.strokes() + o.flushed().pending()));
            },
        }
    }
}

/// One run of herdr for one of the panes.
#[derive(Debug)]
pub struct Command {
    /// The index of the pane.
    pub pane: usize,
    pub args: Vec<String>,
}

/// The model of a `Command`.
#[verifier::ext_equal]
pub struct CommandView {
    pub pane: int,
    pub args: Seq<Seq<char>>,
}

impl View for Command {
    type V = CommandView;

    open spec fn view(&self) -> CommandView {
        CommandView { pane: self.pane as int, args: self.args.deep_view() }
    }
}

impl DeepView for Command {
    type V = CommandView;

    open spec fn deep_view(&self) -> CommandView {
        self.view()
    }
}

/// The panes to which strokes are sent, and which of them cannot be reached any
/// more.
#[derive(Debug)]
pub struct Roster {
    panes: Vec<String>,
    dead: Vec<bool>,
}

/// The model of a `Roster`.
#[verifier::ext_equal]
pub struct RosterView {
    pub panes: Seq<Seq<char>>,
    pub dead: Seq<bool>,
}

impl View for Roster {
    type V = RosterView;

    closed spec fn view(&self) -> RosterView {
        RosterView { panes: self.panes.deep_view(), dead: self.dead@ }
    }
}

/// What is typed into a pane.
pub open spec fn command(pane: int, id: Seq<char>, msg: InputView) -> CommandView {
    CommandView {
        pane,
        args: match msg {
            InputView::Text(text) => seq!["pane"@, "send-text"@, id, text],
            InputView::Key(key) => seq!["pane"@, "send-keys"@, id, key],
        },
    }
}

impl RosterView {
    /// Whether it is known of each pane whether it can be reached.
    pub open spec fn wf(self) -> bool {
        self.panes.len() == self.dead.len()
    }

    /// What is sent to the first `n` panes: the message goes to each that can be
    /// reached.
    pub open spec fn commands(self, msg: InputView, n: int) -> Seq<CommandView>
        decreases n,
    {
        if n <= 0 {
            Seq::empty()
        } else if self.dead[n - 1] {
            self.commands(msg, n - 1)
        } else {
            self.commands(msg, n - 1).push(command(n - 1, self.panes[n - 1], msg))
        }
    }

    /// The roster after the sending to some panes failed.
    pub open spec fn settled(self, failed: Seq<usize>) -> RosterView {
        RosterView {
            dead: Seq::new(
                self.dead.len(),
                |i: int| self.dead[i] || failed.contains(i as usize),
            ),
            ..self
        }
    }
}

impl Roster {
    /// Whether it is known of each pane whether it can be reached.
    pub open spec fn wf(&self) -> bool {
        self@.wf()
    }

    /// A roster of panes that can all be reached.
    pub fn new(panes: Vec<String>) -> (r: Roster)
        ensures
            r.wf(),
            r@.panes == panes.deep_view(),
            r@.dead == Seq::new(panes@.len(), |i: int| false),
    {
        let mut dead: Vec<bool> = Vec::new();
        let mut i: usize = 0;
        while i < panes.len()
            invariant
                i <= panes@.len(),
                dead@ == Seq::new(i as nat, |j: int| false),
            decreases panes@.len() - i,
        {
            dead.push(false);
            assert(dead@ =~= Seq::new((i + 1) as nat, |j: int| false));
            i += 1;
        }
        Roster { panes, dead }
    }

    /// The runs of herdr that send a message to all panes that can be reached.
    pub fn dispatch(&self, msg: &InputMsg) -> (r: Vec<Command>)
        requires
            self.wf(),
        ensures
            r.deep_view() == self@.commands(msg@, self@.panes.len() as int),
    {
        let mut out: Vec<Command> = Vec::new();
        let mut i: usize = 0;
        assert(out.deep_view() =~= Seq::<CommandView>::empty());
        while i < self.panes.len()
            invariant
                self.wf(),
                i <= self.panes@.len(),
                out.deep_view() == self@.commands(msg@, i as int),
            decreases self.panes@.len() - i,
        {
            if !self.dead[i] {
                let id = self.panes[i].as_str();
                let args = match msg {
                    InputMsg::Text(text) => send_text(id, text.as_str()),
                    InputMsg::Key(key) => send_key(id, key),
                };
                let ghost before = out.deep_view();
                out.push(Command { pane: i, args });
                assert(out.deep_view() =~= before.push(
                    command(i as int, self@.panes[i as int], msg@),
                ));
            }
            i += 1;
        }
        out
    }

    /// Notes the panes to which the sending failed.
    pub fn settle(&mut self, failed: &[usize])
        requires
            old(self).wf(),
        ensures
            final(self).wf(),
            final(self)@ == old(self)@.settled(failed@),
    {
        let mut i: usize = 0;
        let ghost before = self.dead@;
        assert(failed@.take(0) =~= Seq::empty());
        while i < failed.len()
            invariant
                i <= failed@.len(),
                self.panes == old(self).panes,
                before == old(self).dead@,
                self.dead@.len() == before.len(),
                forall|j: int|
                    0 <= j < before.len() ==> #[trigger] self.dead@[j] == (before[j]
                        || failed@.take(i as int).contains(j as usize)),
            decreases failed@.len() - i,
        {
            let at = failed[i];
            let ghost mid = self.dead@;
            if at < self.dead.len() {
                self.dead.set(at, true);
            }
            assert(failed@.take(i + 1) =~= failed@.take(i as int).push(at));
            assert forall|j: int| 0 <= j < before.len() implies #[trigger] self.dead@[j] == (
            before[j] || failed@.take(i + 1).contains(j as usize)) by {
                lemma_push_contains(failed@.take(i as int), at, j as usize);
                assert(mid[j] == (before[j] || failed@.take(i as int).contains(j as usize)));
            }
            i += 1;
        }
        assert(failed@.take(i as int) =~= failed@);
        assert(self@ =~= old(self)@.settled(failed@));
    }
}

proof fn lemma_push_contains(s: Seq<usize>, x: usize, y: usize)
    ensures
        s.push(x).contains(y) <==> s.contains(y) || x == y,
{
    if s.contains(y) {
        let k = choose|k: int| 0 <= k < s.len() && s[k] == y;
        assert(s.push(x)[k] == y);
    }
    if x == y {
        assert(s.push(x)[s.len() as int] == y);
    }
}

/// A message goes to every pane that can be reached, once, and to no other one.
pub proof fn law_message_reaches_all_live_panes(r: RosterView, msg: InputView, i: int)
    requires
        r.wf(),
        0 <= i < r.panes.len(),
    ensures
        ({
            let sent = r.commands(msg, r.panes.len() as int);
            let c = command(i, r.panes[i], msg);
            &&& !r.dead[i] ==> exists|k: int| 0 <= k < sent.len() && #[trigger] sent[k] == c
            &&& r.dead[i] ==> forall|k: int| 0 <= k < sent.len() ==> (#[trigger] sent[k]).pane != i
            &&& forall|k: int, l: int|
                0 <= k < l < sent.len() ==> (#[trigger] sent[k]).pane < (#[trigger] sent[l]).pane
        }),
{
    lemma_commands(r, msg, i, r.panes.len() as int);
}

proof fn lemma_commands(r: RosterView, msg: InputView, i: int, n: int)
    requires
        r.wf(),
        0 <= i,
        0 <= n <= r.panes.len(),
    ensures
        ({
            let sent = r.commands(msg, n);
            let c = command(i, r.panes[i], msg);
            &&& i < n && !r.dead[i] ==> exists|k: int|
                0 <= k < sent.len() && #[trigger] sent[k] == c
            &&& r.dead[i] || i >= n ==> forall|k: int|
                0 <= k < sent.len() ==> (#[trigger] sent[k]).pane != i
            &&& forall|k: int| 0 <= k < sent.len() ==> (#[trigger] sent[k]).pane < n
            &&& forall|k: int, l: int|
                0 <= k < l < sent.len() ==> (#[trigger] sent[k]).pane < (#[trigger] sent[l]).pane
        }),
    decreases n,
{
    if n > 0 {
        lemma_commands(r, msg, i, n - 1);
        let before = r.commands(msg, n - 1);
        let sent = r.commands(msg, n);
        let c = command(i, r.panes[i], msg);
        if i < n && !r.dead[i] {
            if i == n - 1 {
                assert(sent[before.len() as int] == c);
            } else {
                let k = choose|k: int| 0 <= k < before.len() && #[trigger] before[k] == c;
                assert(sent[k] == c);
            }
        }
        assert forall|k: int| 0 <= k < before.len() implies #[trigger] sent[k] == before[k] by {}
    }
}

/// A pane that could not be reached once is sent nothing any more, and all
/// others stay as they are.
pub proof fn law_dead_panes_stay_dead(r: RosterView, failed: Seq<usize>, msg: InputView, i: int)
    requires
        r.wf(),
        0 <= i < r.panes.len() <= usize::MAX,
    ensures
        ({
            let next = r.settled(failed);
            let sent = next.commands(msg, next.panes.len() as int);
            &&& next.wf()
            &&& next.dead[i] == (r.dead[i] || failed.contains(i as usize))
            &&& next.dead[i] ==> forall|k: int|
                0 <= k < sent.len() ==> (#[trigger] sent[k]).pane != i
        }),
{
    let next = r.settled(failed);
    law_message_reaches_all_live_panes(next, msg, i);
}

/// A text is as many strokes as it has characters, a key is one.
pub proof fn law_strokes(s: Seq<char>, k: Seq<char>, i: int)
    ensures
        strokes(InputView::Text(s)).len() == s.len(),
        0 <= i < s.len() ==> strokes(InputView::Text(s))[i] == InputView::Text(seq![s[i]]),
        strokes(InputView::Key(k)) == seq![InputView::Key(k)],
{
}

/// What is sent of a batch is its text in one piece, unless it is empty, and then
/// its keys, one message for each.
pub proof fn law_messages_of_a_batch(batch: BatchView, i: int)
    ensures
        ({
            let sent = batch.messages();
            let first: int = if batch.text.len() > 0 { 1 } else { 0 };
            &&& sent.len() == first + batch.keys.len()
            &&& batch.text.len() > 0 ==> sent[0] == InputView::Text(batch.text)
            &&& 0 <= i < batch.keys.len() ==> sent[first + i] == InputView::Key(batch.keys[i])
        }),
{
}

/// A batch grows as long as nothing but text comes, or a single key. A text that
/// comes behind a key, and a key that comes behind anything, complete it.
pub proof fn law_when_a_batch_is_complete(o: OutboxView, s: Seq<char>, k: Seq<char>)
    requires
        !o.complete(),
    ensures
        !OutboxView::empty().complete(),
        OutboxView::empty().is_empty(),
        OutboxView::empty().pending() == Seq::<InputView>::empty(),
        o.held is None,
        o.is_empty() <==> o.pending().len() == 0,
        o.offered(InputView::Text(s)).complete() <==> o.batch.keys.len() > 0,
        o.offered(InputView::Key(k)).complete() <==> o.pending().len() > 0,
        o.offered(InputView::Key(k)).batch.text == o.batch.text,
        o.offered(InputView::Key(k)).batch.keys == o.batch.keys.push(k),
        o.batch.keys.len() == 0 ==> o.offered(InputView::Text(s)).batch.text == o.batch.text + s,
        o.batch.keys.len() > 0 ==> o.offered(InputView::Text(s)).batch == o.batch,
        o.batch.keys.len() > 0 ==> o.offered(InputView::Text(s)).flushed().batch.text == s,
{
    assert(OutboxView::empty().pending() =~= Seq::empty());
}

/// A text is sent to a pane by `herdr pane send-text`, a key by `herdr pane
/// send-keys`; both name the pane and then what is sent.
pub proof fn law_command(pane: int, id: Seq<char>, text: Seq<char>)
    ensures
        command(pane, id, InputView::Text(text)).args == seq!["pane"@, "send-text"@, id, text],
        command(pane, id, InputView::Key(text)).args == seq!["pane"@, "send-keys"@, id, text],
        command(pane, id, InputView::Text(text)).pane == pane,
        command(pane, id, InputView::Key(text)).pane == pane,
{
}

/// Panes are neither lost nor renamed when the sending to some of them fails.
pub proof fn law_settling_keeps_the_panes(r: RosterView, failed: Seq<usize>, msg: InputView)
    requires
        r.wf(),
        r.panes.len() <= usize::MAX,
    ensures
        r.settled(failed).panes == r.panes,
        r.settled(Seq::empty()) == r,
        r.settled(failed).settled(failed) == r.settled(failed),
        (forall|i: int| 0 <= i < r.dead.len() ==> #[trigger] r.dead[i]) ==> r.commands(
            msg,
            r.panes.len() as int,
        ).len() == 0,
{
    assert(r.settled(Seq::empty()) =~= r);
    assert(r.settled(failed).settled(failed) =~= r.settled(failed));
    if forall|i: int| 0 <= i < r.dead.len() ==> #[trigger] r.dead[i] {
        lemma_nothing_for_the_dead(r, msg, r.panes.len() as int);
    }
}

proof fn lemma_nothing_for_the_dead(r: RosterView, msg: InputView, n: int)
    requires
        r.wf(),
        0 <= n <= r.panes.len(),
        forall|i: int| 0 <= i < r.dead.len() ==> #[trigger] r.dead[i],
    ensures
        r.commands(msg, n).len() == 0,
    decreases n,
{
    if n > 0 {
        lemma_nothing_for_the_dead(r, msg, n - 1);
        assert(r.dead[n - 1]);
    }
}

} // verus!

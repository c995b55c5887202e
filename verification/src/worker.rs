//! The DAPNET worker: when it receives, which messages it forwards, and as what.

use crate::config;
use crate::config::{clamp_incident, CfgDapnet, INCIDENT_MAX};
use crate::message;
use crate::message::DapnetMessage;
use crate::number;
use crate::number::decimal_text;
use crate::paging;
use crate::paging::{format_plain_message, prefixed_text, truncate_chars};
use crate::text;
use std::collections::VecDeque;
use vstd::hash_set::StringHashSet;
use vstd::prelude::*;

verus! {

/// The type of messages that carry text.
pub const TEXT_MESSAGE_TYPE: u8 = 6;

/// How many characters a Call-Out shows.
pub const CALLOUT_TEXT_MAX_CHARS: usize = 80;

/// The longest payload whose length in bits a command can hold.
pub const PAYLOAD_MAX_BYTES: usize = 8191;

/// The worker's memory: the messages that were seen last, and the incident numbers.
pub struct DapnetWorker {
    seen: StringHashSet,
    seen_order: VecDeque<String>,
    next_callout_incident: u16,
    last_callout_incident_base: Option<u16>,
    last_enabled: Option<bool>,
}

/// What the worker remembers: the ids of the messages seen, oldest first, the incident number
/// that comes next, the base that it was started from, and what the last poll found enabled.
pub struct WorkerView {
    pub seen: Seq<Seq<char>>,
    pub next_incident: u16,
    pub last_base: Option<u16>,
    pub last_enabled: Option<bool>,
}

impl View for DapnetWorker {
    type V = WorkerView;

    closed spec fn view(&self) -> WorkerView {
        WorkerView {
            seen: self.seen_order.deep_view(),
            next_incident: self.next_callout_incident,
            last_base: self.last_callout_incident_base,
            last_enabled: self.last_enabled,
        }
    }
}

/// What a poll of the settings asks for.
#[derive(Debug, Clone, Copy, PartialEq, Eq, Structural)]
pub enum PollAction {
    /// Nothing: the integration is disabled.
    Disabled,
    /// Nothing: it is enabled, but no receiver is.
    NoReceiver,
    /// Receive from the RWTH core.
    Receive,
}

/// A poll of the settings.
#[derive(Debug, Clone, Copy, PartialEq, Eq, Structural)]
pub struct PollStep {
    pub action: PollAction,
    /// Whether the integration was not enabled, or not disabled, before.
    pub changed: bool,
    /// Whether messages will reach nothing, as this poll is the first to find.
    pub no_target: bool,
    /// The time to wait before the next poll.
    pub sleep_secs: u64,
}

/// What becomes of a message.
#[derive(Debug, Clone, Copy, PartialEq, Eq, Structural)]
pub enum Delivery {
    /// It carries no text.
    NotText,
    /// It was seen before.
    Duplicate,
    /// It is to be forwarded.
    Forward,
}

/// Where a message is forwarded to.
#[derive(Debug, Clone, Copy, PartialEq, Eq, Structural)]
pub enum ForwardTarget {
    Sds,
    Callout,
    Telegram,
}

/// Which attempts at forwarding a message succeeded.
#[derive(Debug, Clone, Copy, PartialEq, Eq, Structural)]
pub struct ForwardResults {
    pub sds: bool,
    pub callout: bool,
    pub telegram: bool,
}

/// A Call-Out before it is encoded.
#[derive(Debug, Clone)]
pub struct CalloutJob {
    pub incident: u16,
    pub text: String,
    /// Whether the text was longer.
    pub truncated: bool,
}

/// An alert for Telegram.
#[derive(Debug, Clone)]
pub struct TelegramAlert {
    pub prefix: String,
    pub callsign: String,
    pub text: String,
}

/// A command to the circuit mode control entity.
#[derive(Debug, Clone)]
pub enum ControlCommand {
    SendSds {
        handle: u32,
        source_ssi: u32,
        dest_ssi: u32,
        dest_is_group: bool,
        len_bits: u16,
        payload: Vec<u8>,
    },
    SendRawSdsType4 {
        handle: u32,
        source_ssi: u32,
        dest_ssi: u32,
        dest_is_group: bool,
        len_bits: u16,
        payload: Vec<u8>,
    },
}

/// The record of a message that was received.
#[derive(Debug, Clone)]
pub struct DapnetLog {
    pub direction: String,
    pub id: String,
    pub callsign: String,
    pub recipient: String,
    pub text: String,
    pub priority: Option<u8>,
    pub paths: Vec<String>,
}

/// What is remembered after a message: its id at the end, and no more than `limit` ids. A message
/// that is remembered already changes nothing.
pub open spec fn remembered(seen: Seq<Seq<char>>, id: Seq<char>, limit: nat) -> Seq<Seq<char>> {
    if seen.contains(id) {
        seen
    } else {
        let all = seen.push(id);
        if all.len() > limit {
            all.skip(all.len() - limit)
        } else {
            all
        }
    }
}

/// The incident number that follows another.
pub open spec fn incident_after(n: u16) -> u16 {
    if n >= INCIDENT_MAX {
        1
    } else {
        (n + 1) as u16
    }
}

/// What the worker remembers after a poll.
pub open spec fn polled(w: WorkerView, cfg: &CfgDapnet) -> WorkerView {
    if !cfg.enabled {
        WorkerView { last_enabled: Some(false), ..w }
    } else {
        let base = config::clamped_incident(cfg.callout_incident_base);
        let restart = w.last_enabled != Some(true) || w.last_base != Some(base);
        WorkerView {
            seen: w.seen,
            next_incident: if restart {
                base
            } else {
                w.next_incident
            },
            last_base: Some(base),
            last_enabled: Some(true),
        }
    }
}

/// What a poll asks for.
pub open spec fn poll_step_of(w: WorkerView, cfg: &CfgDapnet) -> PollStep {
    let changed = w.last_enabled != Some(cfg.enabled);
    PollStep {
        action: if !cfg.enabled {
            PollAction::Disabled
        } else if cfg.rwth_core_enabled {
            PollAction::Receive
        } else {
            PollAction::NoReceiver
        },
        changed,
        no_target: cfg.enabled && changed && !cfg.forward_sds && !cfg.forward_callout
            && !cfg.forward_telegram,
        sleep_secs: cfg.poll_interval_secs,
    }
}

impl ForwardTarget {
    /// The name of the target in reports.
    pub open spec fn path_name(self) -> Seq<char> {
        match self {
            ForwardTarget::Sds => "sds"@,
            ForwardTarget::Callout => "callout"@,
            ForwardTarget::Telegram => "telegram"@,
        }
    }

    /// The name of the target in reports.
    pub fn path(self) -> (s: String)
        ensures
            s@ == self.path_name(),
    {
        match self {
            ForwardTarget::Sds => "sds".to_owned(),
            ForwardTarget::Callout => "callout".to_owned(),
            ForwardTarget::Telegram => "telegram".to_owned(),
        }
    }
}

/// The targets with a flag set, in the order in which they are tried.
pub open spec fn flagged(sds: bool, callout: bool, telegram: bool) -> Seq<ForwardTarget> {
    let a = if sds {
        Seq::empty().push(ForwardTarget::Sds)
    } else {
        Seq::empty()
    };
    let b = if callout {
        a.push(ForwardTarget::Callout)
    } else {
        a
    };
    if telegram {
        b.push(ForwardTarget::Telegram)
    } else {
        b
    }
}

/// The targets that messages are forwarded to, in the order in which they are tried.
pub open spec fn targets_of(cfg: &CfgDapnet) -> Seq<ForwardTarget> {
    flagged(cfg.forward_sds, cfg.forward_callout, cfg.forward_telegram)
}

/// The targets that a message reached: those that are enabled and whose attempt succeeded.
pub open spec fn reached(cfg: &CfgDapnet, results: ForwardResults) -> Seq<ForwardTarget> {
    flagged(
        cfg.forward_sds && results.sds,
        cfg.forward_callout && results.callout,
        cfg.forward_telegram && results.telegram,
    )
}

/// The text of a Call-Out: as much as it shows of the message behind its prefix.
pub open spec fn callout_text(cfg: &CfgDapnet, msg: &DapnetMessage) -> Seq<char> {
    paging::truncated(
        paging::with_prefix(cfg.callout_text_prefix@, msg.text@),
        CALLOUT_TEXT_MAX_CHARS as nat,
    )
}

impl DapnetWorker {
    /// The ids are remembered once each, in both places alike.
    pub closed spec fn wf(&self) -> bool {
        &&& self.seen_order.deep_view().no_duplicates()
        &&& forall|id: Seq<char>|
            self.seen@.contains(id) <==> #[trigger] self.seen_order.deep_view().contains(id)
    }

    /// A worker that has seen no message and made no poll.
    pub fn new(cfg: &CfgDapnet) -> (w: DapnetWorker)
        ensures
            w.wf(),
            w@ == (WorkerView {
                seen: Seq::empty(),
                next_incident: config::clamped_incident(cfg.callout_incident_base),
                last_base: None,
                last_enabled: None,
            }),
    {
        let w = DapnetWorker {
            seen: StringHashSet::new(),
            seen_order: VecDeque::new(),
            next_callout_incident: clamp_incident(cfg.callout_incident_base),
            last_callout_incident_base: None,
            last_enabled: None,
        };
        assert(w.seen_order.deep_view() =~= Seq::<Seq<char>>::empty());
        w
    }

    /// One poll of the settings. Incident numbers start again from their base when the
    /// integration is switched on, and when the base is changed.
    pub fn poll(&mut self, cfg: &CfgDapnet) -> (step: PollStep)
        requires
            old(self).wf(),
        ensures
            final(self).wf(),
            final(self)@ == polled(old(self)@, cfg),
            step == poll_step_of(old(self)@, cfg),
    {
        let changed = match self.last_enabled {
            Some(e) => e != cfg.enabled,
            None => true,
        };
        self.last_enabled = Some(cfg.enabled);
        if !cfg.enabled {
            return PollStep {
                action: PollAction::Disabled,
                changed,
                no_target: false,
                sleep_secs: cfg.poll_interval_secs,
            };
        }
        if changed {
            self.last_callout_incident_base = None;
        }
        let base = clamp_incident(cfg.callout_incident_base);
        let same = match self.last_callout_incident_base {
            Some(b) => b == base,
            None => false,
        };
        if !same {
            self.next_callout_incident = base;
            self.last_callout_incident_base = Some(base);
        }
        PollStep {
            action: if cfg.rwth_core_enabled {
                PollAction::Receive
            } else {
                PollAction::NoReceiver
            },
            changed,
            no_target: changed && !(cfg.forward_sds || cfg.forward_callout || cfg.forward_telegram),
            sleep_secs: cfg.poll_interval_secs,
        }
    }

    /// Remembers a message, and forgets the oldest ones beyond the limit. Whether it was new.
    pub fn remember_seen(&mut self, id: &str, limit: usize) -> (new: bool)
        requires
            old(self).wf(),
        ensures
            final(self).wf(),
            new == !old(self)@.seen.contains(id@),
            final(self)@ == (WorkerView {
                seen: remembered(old(self)@.seen, id@, limit as nat),
                ..old(self)@
            }),
    {
        let ghost before = self.seen_order.deep_view();
        if !self.seen.insert(id.to_owned()) {
            assert(self.seen@ =~= old(self).seen@);
            return false;
        }
        self.seen_order.push_back(id.to_owned());
        let ghost all = before.push(id@);
        let ghost mut gone: int = 0;
        proof {
            assert(self.seen_order.deep_view() =~= all);
            assert(all.skip(0) =~= all);
            assert forall|x: Seq<char>|
                self.seen@.contains(x) <==> #[trigger] self.seen_order.deep_view().contains(x) by {
                if before.contains(x) {
                    let k = choose|k: int| 0 <= k < before.len() && before[k] == x;
                    assert(all[k] == x);
                }
                if x == id@ {
                    assert(all[all.len() - 1] == x);
                }
            }
        }
        while self.seen_order.len() > limit
            invariant
                0 <= gone <= all.len(),
                self.seen_order.deep_view() == all.skip(gone),
                gone > 0 ==> all.len() - gone >= limit,
                all.no_duplicates(),
                forall|x: Seq<char>|
                    self.seen@.contains(x) <==> #[trigger] self.seen_order.deep_view().contains(x),
                self.next_callout_incident == old(self).next_callout_incident,
                self.last_callout_incident_base == old(self).last_callout_incident_base,
                self.last_enabled == old(self).last_enabled,
            decreases self.seen_order@.len(),
        {
            let ghost prior = self.seen_order.deep_view();
            if let Some(oldest) = self.seen_order.pop_front() {
                self.seen.remove(oldest.as_str());
                proof {
                    gone = gone + 1;
                    let now = self.seen_order.deep_view();
                    assert(oldest@ == prior[0]);
                    assert(now =~= prior.skip(1));
                    assert(now =~= all.skip(gone));
                    assert forall|x: Seq<char>|
                        self.seen@.contains(x) <==> #[trigger] now.contains(x) by {
                        if prior.contains(x) && x != oldest@ {
                            let k = choose|k: int| 0 <= k < prior.len() && prior[k] == x;
                            assert(now[k - 1] == x);
                        }
                        if now.contains(x) {
                            let k = choose|k: int| 0 <= k < now.len() && now[k] == x;
                            assert(prior[k + 1] == x);
                            assert(all[gone + k] == x && all[gone - 1] == oldest@);
                        }
                    }
                }
            }
        }
        proof {
            assert(self.seen_order.deep_view() =~= remembered(before, id@, limit as nat));
        }
        true
    }

    /// What becomes of a message: one that carries text is forwarded the first time it is seen.
    pub fn accept_message(&mut self, msg: &DapnetMessage, limit: usize) -> (d: Delivery)
        requires
            old(self).wf(),
        ensures
            final(self).wf(),
            d == (if msg.msg_type != TEXT_MESSAGE_TYPE {
                Delivery::NotText
            } else if old(self)@.seen.contains(msg.id@) {
                Delivery::Duplicate
            } else {
                Delivery::Forward
            }),
            final(self)@ == (WorkerView {
                seen: if msg.msg_type == TEXT_MESSAGE_TYPE {
                    remembered(old(self)@.seen, msg.id@, limit as nat)
                } else {
                    old(self)@.seen
                },
                ..old(self)@
            }),
    {
        if msg.msg_type != TEXT_MESSAGE_TYPE {
            return Delivery::NotText;
        }
        if self.remember_seen(msg.id.as_str(), limit) {
            Delivery::Forward
        } else {
            Delivery::Duplicate
        }
    }

    /// The number of the next incident, from 1 to 256 and round again.
    pub fn next_incident(&mut self) -> (incident: u16)
        requires
            old(self).wf(),
        ensures
            final(self).wf(),
            incident == config::clamped_incident(old(self)@.next_incident),
            final(self)@ == (WorkerView { next_incident: incident_after(incident), ..old(self)@ }),
    {
        let incident = clamp_incident(self.next_callout_incident);
        self.next_callout_incident = if incident >= INCIDENT_MAX {
            1
        } else {
            incident + 1
        };
        incident
    }

    /// The Call-Out for a message, or why there is none. Only a Call-Out uses up an incident.
    pub fn forward_callout(
        &mut self,
        cfg: &CfgDapnet,
        msg: &DapnetMessage,
        cmce_available: bool,
    ) -> (r: Result<CalloutJob, String>)
        requires
            old(self).wf(),
        ensures
            final(self).wf(),
            match r {
                Ok(job) => {
                    &&& cfg.callout_dest_issi != 0 && cmce_available
                    &&& job.incident == config::clamped_incident(old(self)@.next_incident)
                    &&& job.text@ == callout_text(cfg, msg)
                    &&& job.truncated == (paging::with_prefix(
                        cfg.callout_text_prefix@,
                        msg.text@,
                    ).len() > CALLOUT_TEXT_MAX_CHARS)
                    &&& final(self)@ == (WorkerView {
                        next_incident: incident_after(job.incident),
                        ..old(self)@
                    })
                },
                Err(e) => {
                    &&& cfg.callout_dest_issi == 0 || !cmce_available
                    &&& e@ == (if cfg.callout_dest_issi == 0 {
                        "callout_dest_issi is 0"@
                    } else {
                        "CMCE control sender unavailable"@
                    })
                    &&& final(self)@ == old(self)@
                },
            },
    {
        if cfg.callout_dest_issi == 0 {
            return Err("callout_dest_issi is 0".to_owned());
        }
        if !cmce_available {
            return Err("CMCE control sender unavailable".to_owned());
        }
        let incident = self.next_incident();
        let full = prefixed_text(cfg.callout_text_prefix.as_str(), msg.text.as_str());
        let (text, truncated) = truncate_chars(full.as_str(), CALLOUT_TEXT_MAX_CHARS);
        Ok(CalloutJob { incident, text, truncated })
    }
}

/// The targets that messages are forwarded to, in the order in which they are tried.
pub fn forward_targets(cfg: &CfgDapnet) -> (r: Vec<ForwardTarget>)
    ensures
        r@ == targets_of(cfg),
{
    let mut r: Vec<ForwardTarget> = Vec::new();
    if cfg.forward_sds {
        r.push(ForwardTarget::Sds);
    }
    if cfg.forward_callout {
        r.push(ForwardTarget::Callout);
    }
    if cfg.forward_telegram {
        r.push(ForwardTarget::Telegram);
    }
    r
}

/// The text of the SDS for a message, or why there is none.
pub fn forward_sds(cfg: &CfgDapnet, msg: &DapnetMessage, cmce_available: bool) -> (r: Result<
    String,
    String,
>)
    ensures
        match r {
            Ok(t) => cfg.sds_dest_issi != 0 && cmce_available && t@ == paging::plain_message(
                msg.callsign@,
                msg.text@,
            ),
            Err(e) => (cfg.sds_dest_issi == 0 || !cmce_available) && e@ == (if cfg.sds_dest_issi
                == 0 {
                "sds_dest_issi is 0"@
            } else {
                "CMCE control sender unavailable"@
            }),
        },
{
    if cfg.sds_dest_issi == 0 {
        return Err("sds_dest_issi is 0".to_owned());
    }
    if !cmce_available {
        return Err("CMCE control sender unavailable".to_owned());
    }
    Ok(format_plain_message(msg.callsign.as_str(), msg.text.as_str()))
}

/// The command that sends an encoded SDS.
pub fn sds_command(cfg: &CfgDapnet, len_bits: u16, payload: Vec<u8>) -> (c: ControlCommand)
    ensures
        c == (ControlCommand::SendSds {
            handle: 0,
            source_ssi: cfg.sds_source_issi,
            dest_ssi: cfg.sds_dest_issi,
            dest_is_group: cfg.sds_dest_is_group,
            len_bits,
            payload,
        }),
{
    ControlCommand::SendSds {
        handle: 0,
        source_ssi: cfg.sds_source_issi,
        dest_ssi: cfg.sds_dest_issi,
        dest_is_group: cfg.sds_dest_is_group,
        len_bits,
        payload,
    }
}

/// The command that sends an encoded Call-Out, unless its length in bits exceeds 16 bits.
pub fn callout_command(cfg: &CfgDapnet, payload: Vec<u8>) -> (r: Result<ControlCommand, String>)
    ensures
        match r {
            Ok(c) => payload@.len() <= PAYLOAD_MAX_BYTES && c == (ControlCommand::SendRawSdsType4 {
                handle: 0,
                source_ssi: cfg.callout_source_issi,
                dest_ssi: cfg.callout_dest_issi,
                dest_is_group: false,
                len_bits: (payload@.len() * 8) as u16,
                payload,
            }),
            Err(e) => payload@.len() > PAYLOAD_MAX_BYTES && e@ == "payload too large ("@
                + number::decimal(payload@.len()) + " bytes)"@,
        },
{
    if payload.len() > PAYLOAD_MAX_BYTES {
        return Err(
            "payload too large (".to_owned().concat(
                decimal_text(payload.len() as u64).as_str(),
            ).concat(" bytes)"),
        );
    }
    Ok(
        ControlCommand::SendRawSdsType4 {
            handle: 0,
            source_ssi: cfg.callout_source_issi,
            dest_ssi: cfg.callout_dest_issi,
            dest_is_group: false,
            len_bits: (payload.len() * 8) as u16,
            payload,
        },
    )
}

/// The Telegram alert for a message, or why there is none.
pub fn forward_telegram(cfg: &CfgDapnet, msg: &DapnetMessage, telegram_available: bool) -> (r:
    Result<TelegramAlert, String>)
    ensures
        match r {
            Ok(a) => telegram_available && a.prefix@ == cfg.telegram_prefix@ && a.callsign@
                == msg.callsign@ && a.text@ == msg.text@,
            Err(e) => !telegram_available && e@ == "Telegram alerter unavailable"@,
        },
{
    if !telegram_available {
        return Err("Telegram alerter unavailable".to_owned());
    }
    Ok(
        TelegramAlert {
            prefix: cfg.telegram_prefix.clone(),
            callsign: msg.callsign.clone(),
            text: msg.text.clone(),
        },
    )
}

/// The record of a message after the attempts at forwarding it: what it held, and the targets
/// that it reached.
pub fn forward_message(cfg: &CfgDapnet, msg: &DapnetMessage, results: ForwardResults) -> (r:
    DapnetLog)
    ensures
        r.direction@ == "rx"@,
        r.id@ == msg.id@,
        r.callsign@ == msg.callsign@,
        r.recipient@ == msg.recipient@,
        r.text@ == msg.text@,
        r.priority == msg.priority,
        r.paths.deep_view() == reached(cfg, results).map_values(
            |t: ForwardTarget| t.path_name(),
        ),
{
    let mut paths: Vec<String> = Vec::new();
    if cfg.forward_sds && results.sds {
        paths.push(ForwardTarget::Sds.path());
    }
    if cfg.forward_callout && results.callout {
        paths.push(ForwardTarget::Callout.path());
    }
    if cfg.forward_telegram && results.telegram {
        paths.push(ForwardTarget::Telegram.path());
    }
    assert(paths.deep_view() =~= reached(cfg, results).map_values(
        |t: ForwardTarget| t.path_name(),
    ));
    DapnetLog {
        direction: "rx".to_owned(),
        id: msg.id.clone(),
        callsign: msg.callsign.clone(),
        recipient: msg.recipient.clone(),
        text: msg.text.clone(),
        priority: msg.priority,
        paths,
    }
}

/// What is remembered after several messages, one after the other.
pub open spec fn remembered_all(
    seen: Seq<Seq<char>>,
    ids: Seq<Seq<char>>,
    limit: nat,
) -> Seq<Seq<char>>
    decreases ids.len(),
{
    if ids.len() == 0 {
        seen
    } else {
        remembered(remembered_all(seen, ids.drop_last(), limit), ids.last(), limit)
    }
}

/// The last `n` elements of a sequence.
pub open spec fn last_of(s: Seq<Seq<char>>, n: nat) -> Seq<Seq<char>> {
    if s.len() > n {
        s.skip(s.len() - n)
    } else {
        s
    }
}

/// A message that was just remembered is a duplicate when it comes again, and then changes
/// nothing. Where nothing may be remembered at all, it is forgotten at once.
pub proof fn law_duplicate(seen: Seq<Seq<char>>, id: Seq<char>, limit: nat, later_limit: nat)
    requires
        limit > 0,
    ensures
        remembered(seen, id, limit).contains(id),
        remembered(remembered(seen, id, limit), id, later_limit) == remembered(seen, id, limit),
{
    let r = remembered(seen, id, limit);
    if !seen.contains(id) {
        assert(r[r.len() - 1] == id);
    }
}

/// How many of several messages, one after the other, are new when they come.
pub open spec fn new_among(seen: Seq<Seq<char>>, ids: Seq<Seq<char>>, limit: nat) -> nat
    decreases ids.len(),
{
    if ids.len() == 0 {
        0
    } else {
        let front = ids.drop_last();
        new_among(seen, front, limit) + if remembered_all(seen, front, limit).contains(ids.last()) {
            0nat
        } else {
            1nat
        }
    }
}

/// The place of an id among those remembered, once it was new: as many ids are behind it as were
/// new since.
proof fn lemma_place(seen: Seq<Seq<char>>, id: Seq<char>, ids: Seq<Seq<char>>, limit: nat)
    requires
        !seen.contains(id),
        limit > 0,
    ensures
        ({
            let since = new_among(remembered(seen, id, limit), ids, limit);
            let r = remembered_all(remembered(seen, id, limit), ids, limit);
            &&& r.len() <= limit
            &&& since < limit ==> since < r.len() && r[r.len() - 1 - since] == id
        }),
    decreases ids.len(),
{
    if ids.len() > 0 {
        lemma_place(seen, id, ids.drop_last(), limit);
    }
}

/// What is remembered holds no id twice.
proof fn lemma_all_once(seen: Seq<Seq<char>>, ids: Seq<Seq<char>>, limit: nat)
    requires
        seen.no_duplicates(),
    ensures
        remembered_all(seen, ids, limit).no_duplicates(),
    decreases ids.len(),
{
    if ids.len() > 0 {
        let front = ids.drop_last();
        lemma_all_once(seen, front, limit);
        law_remembered_bounded(remembered_all(seen, front, limit), ids.last(), limit);
    }
}

/// Once a message was new, it is a duplicate as long as fewer than `limit` others have been new
/// since, whatever repeats come among them. After that it is not, unless it came again itself.
pub proof fn law_remembered_since(
    seen: Seq<Seq<char>>,
    id: Seq<char>,
    ids: Seq<Seq<char>>,
    limit: nat,
)
    requires
        seen.no_duplicates(),
        !seen.contains(id),
        limit > 0,
    ensures
        ({
            let since = new_among(remembered(seen, id, limit), ids, limit);
            let r = remembered_all(remembered(seen, id, limit), ids, limit);
            &&& since < limit ==> r.contains(id)
            &&& since >= limit && !ids.contains(id) ==> !r.contains(id)
        }),
    decreases ids.len(),
{
    let first = remembered(seen, id, limit);
    let since = new_among(first, ids, limit);
    let r = remembered_all(first, ids, limit);
    lemma_place(seen, id, ids, limit);
    if since < limit {
        assert(r[r.len() - 1 - since] == id);
    } else if ids.len() > 0 && !ids.contains(id) {
        let front = ids.drop_last();
        let prior = remembered_all(first, front, limit);
        assert(ids.contains(ids.last()));
        assert(!front.contains(id)) by {
            if front.contains(id) {
                let k = choose|k: int| 0 <= k < front.len() && front[k] == id;
                assert(ids[k] == id);
            }
        }
        law_remembered_since(seen, id, front, limit);
        lemma_place(seen, id, front, limit);
        law_remembered_bounded(seen, id, limit);
        lemma_all_once(first, front, limit);
        if r.contains(id) {
            let k = choose|k: int| 0 <= k < r.len() && r[k] == id;
            if prior.contains(ids.last()) {
                assert(prior.contains(id));
            } else {
                // The oldest id has gone, and no other is the same.
                let all = prior.push(ids.last());
                let gone = all.len() - r.len();
                assert(all[gone + k] == id);
                assert(prior[gone + k] == id);
                assert(prior.contains(id));
                assert(prior[0] == id);
            }
        }
    }
}

/// A message line that was forwarded is not forwarded again when it comes again, as long as fewer
/// than `limit` other messages have been forwarded since: its message is remembered under the same
/// id, whenever the line arrives.
pub proof fn law_line_forwarded_once(
    line: Seq<char>,
    now: Seq<char>,
    later: Seq<char>,
    seen: Seq<Seq<char>>,
    ids: Seq<Seq<char>>,
    limit: nat,
)
    requires
        message::message_at(line, now) is Ok,
        seen.no_duplicates(),
        !seen.contains(message::message_at(line, now)->Ok_0.id),
        new_among(remembered(seen, message::message_at(line, now)->Ok_0.id, limit), ids, limit)
            < limit,
    ensures
        message::message_at(line, later) matches Ok(m) && remembered_all(
            remembered(seen, message::message_at(line, now)->Ok_0.id, limit),
            ids,
            limit,
        ).contains(m.id),
{
    message::law_same_line_same_id(line, now, later);
    law_remembered_since(seen, message::message_at(line, now)->Ok_0.id, ids, limit);
}

/// No id is remembered twice, and after a new message no more than `limit` are.
pub proof fn law_remembered_bounded(seen: Seq<Seq<char>>, id: Seq<char>, limit: nat)
    requires
        seen.no_duplicates(),
    ensures
        remembered(seen, id, limit).no_duplicates(),
        seen.len() <= limit || !seen.contains(id) ==> remembered(seen, id, limit).len() <= limit,
{
    let all = seen.push(id);
    if !seen.contains(id) {
        assert(all.no_duplicates());
    }
}

/// Of messages that are all different, exactly the last `limit` are remembered: until so many
/// others have come a message is a duplicate, and after that it is not.
pub proof fn law_window(seen: Seq<Seq<char>>, ids: Seq<Seq<char>>, limit: nat)
    requires
        (seen + ids).no_duplicates(),
        seen.len() <= limit,
    ensures
        remembered_all(seen, ids, limit) == last_of(seen + ids, limit),
    decreases ids.len(),
{
    if ids.len() == 0 {
        assert(seen + ids =~= seen);
    } else {
        let front = ids.drop_last();
        let id = ids.last();
        assert(seen + front =~= (seen + ids).drop_last());
        assert((seen + front).no_duplicates());
        law_window(seen, front, limit);
        let prior = last_of(seen + front, limit);
        if prior.contains(id) {
            let k = choose|k: int| 0 <= k < prior.len() && prior[k] == id;
            let shift = (seen + front).len() - prior.len();
            assert((seen + ids)[shift + k] == id);
            assert((seen + ids)[(seen + ids).len() - 1] == id);
        }
        assert(remembered(prior, id, limit) =~= last_of(seen + ids, limit));
    }
}

/// A worker remembers no id twice.
pub proof fn law_seen_once(w: DapnetWorker)
    requires
        w.wf(),
    ensures
        w@.seen.no_duplicates(),
{
}

/// The incident number after `n` more incidents.
pub open spec fn incident_after_n(start: u16, n: nat) -> u16
    decreases n,
{
    if n == 0 {
        start
    } else {
        incident_after(incident_after_n(start, (n - 1) as nat))
    }
}

/// Incident numbers count from 1 to 256 and round again.
pub proof fn law_incident_cycle(start: u16, n: nat)
    requires
        1 <= start <= 256,
    ensures
        incident_after_n(start, n) == (start - 1 + n) % 256 + 1,
    decreases n,
{
    if n > 0 {
        law_incident_cycle(start, (n - 1) as nat);
    }
}

/// Any 256 incidents in a row have different numbers.
pub proof fn law_incidents_differ(start: u16, i: nat, j: nat)
    requires
        1 <= start <= 256,
        i < j < i + 256,
    ensures
        incident_after_n(start, i) != incident_after_n(start, j),
{
    law_incident_cycle(start, i);
    law_incident_cycle(start, j);
}

/// As long as the settings stay the same, only the first poll finds a change, and no later one
/// touches what was remembered or counted since.
pub proof fn law_poll_again(w: WorkerView, cfg: CfgDapnet, seen: Seq<Seq<char>>, next: u16)
    ensures
        ({
            let later = WorkerView { seen, next_incident: next, ..polled(w, &cfg) };
            &&& polled(later, &cfg) == later
            &&& !poll_step_of(later, &cfg).changed
            &&& !poll_step_of(later, &cfg).no_target
        }),
{
}

/// A message reaches only targets that are enabled, and all of them where every attempt succeeds.
pub proof fn law_reached(cfg: CfgDapnet, results: ForwardResults)
    ensures
        forall|t: ForwardTarget| #[trigger]
            reached(&cfg, results).contains(t) ==> targets_of(&cfg).contains(t),
        results.sds && results.callout && results.telegram ==> reached(&cfg, results)
            == targets_of(&cfg),
{
    let r = reached(&cfg, results);
    let all = targets_of(&cfg);
    let last = all.len() - 1;
    assert forall|t: ForwardTarget| #[trigger] r.contains(t) implies all.contains(t) by {
        match t {
            ForwardTarget::Sds => {
                assert(all[0] == t);
            },
            ForwardTarget::Callout => {
                assert(all[if cfg.forward_sds {
                    1int
                } else {
                    0int
                }] == t);
            },
            ForwardTarget::Telegram => {
                assert(all[last] == t);
            },
        }
    }
}

/// The text of a Call-Out is as long as a Call-Out can show, at most.
pub proof fn law_callout_text(cfg: CfgDapnet, msg: DapnetMessage)
    ensures
        callout_text(&cfg, &msg).len() <= CALLOUT_TEXT_MAX_CHARS,
{
}

/// Whether targets are tried in their order: SDS first, then Call-Out, then Telegram, none twice.
pub open spec fn in_order(targets: Seq<ForwardTarget>) -> bool {
    forall|i: int, j: int|
        0 <= i < j < targets.len() ==> match (#[trigger] targets[i], #[trigger] targets[j]) {
            (ForwardTarget::Sds, ForwardTarget::Callout) => true,
            (ForwardTarget::Sds, ForwardTarget::Telegram) => true,
            (ForwardTarget::Callout, ForwardTarget::Telegram) => true,
            _ => false,
        }
}

/// The targets whose flags are set are there once each, in their order, and each by its own flag
/// alone.
proof fn lemma_flagged(sds: bool, callout: bool, telegram: bool)
    ensures
        flagged(sds, callout, telegram).contains(ForwardTarget::Sds) <==> sds,
        flagged(sds, callout, telegram).contains(ForwardTarget::Callout) <==> callout,
        flagged(sds, callout, telegram).contains(ForwardTarget::Telegram) <==> telegram,
        in_order(flagged(sds, callout, telegram)),
{
    let f = flagged(sds, callout, telegram);
    let second = if sds {
        1int
    } else {
        0int
    };
    if sds {
        assert(f[0] == ForwardTarget::Sds);
    }
    if callout {
        assert(f[second] == ForwardTarget::Callout);
    }
    if telegram {
        assert(f[f.len() - 1] == ForwardTarget::Telegram);
    }
}

/// Messages are forwarded to each target exactly if its own setting is on, once and in order.
pub proof fn law_targets(cfg: CfgDapnet)
    ensures
        targets_of(&cfg).contains(ForwardTarget::Sds) <==> cfg.forward_sds,
        targets_of(&cfg).contains(ForwardTarget::Callout) <==> cfg.forward_callout,
        targets_of(&cfg).contains(ForwardTarget::Telegram) <==> cfg.forward_telegram,
        in_order(targets_of(&cfg)),
{
    lemma_flagged(cfg.forward_sds, cfg.forward_callout, cfg.forward_telegram);
}

/// A target is reported as reached, under its name, exactly if its own setting is on and its own
/// attempt succeeded, once and in order.
pub proof fn law_paths(cfg: CfgDapnet, results: ForwardResults)
    ensures
        ({
            let r = reached(&cfg, results);
            let names = r.map_values(|t: ForwardTarget| t.path_name());
            &&& r.contains(ForwardTarget::Sds) <==> cfg.forward_sds && results.sds
            &&& r.contains(ForwardTarget::Callout) <==> cfg.forward_callout && results.callout
            &&& r.contains(ForwardTarget::Telegram) <==> cfg.forward_telegram && results.telegram
            &&& in_order(r)
            &&& forall|i: int|
                0 <= i < r.len() ==> #[trigger] names[i] == match r[i] {
                    ForwardTarget::Sds => seq!['s', 'd', 's'],
                    ForwardTarget::Callout => seq!['c', 'a', 'l', 'l', 'o', 'u', 't'],
                    ForwardTarget::Telegram => seq!['t', 'e', 'l', 'e', 'g', 'r', 'a', 'm'],
                }
        }),
{
    lemma_flagged(
        cfg.forward_sds && results.sds,
        cfg.forward_callout && results.callout,
        cfg.forward_telegram && results.telegram,
    );
    reveal_strlit("sds");
    reveal_strlit("callout");
    reveal_strlit("telegram");
    assert("sds"@ =~= seq!['s', 'd', 's']);
    assert("callout"@ =~= seq!['c', 'a', 'l', 'l', 'o', 'u', 't']);
    assert("telegram"@ =~= seq!['t', 'e', 'l', 'e', 'g', 'r', 'a', 'm']);
}

/// A Call-Out shows the first 80 characters of the message behind its prefix, and all of it where
/// it is no longer.
pub proof fn law_callout_shows(
    cfg: CfgDapnet,
    msg: DapnetMessage,
    prefix: Seq<char>,
    txt: Seq<char>,
)
    requires
        text::is_core(cfg.callout_text_prefix@, prefix),
        text::is_core(msg.text@, txt),
    ensures
        ({
            let full = if prefix.len() == 0 {
                txt
            } else if txt.len() == 0 {
                prefix
            } else {
                prefix + seq![' '] + txt
            };
            callout_text(&cfg, &msg) == if full.len() > 80 {
                full.take(80)
            } else {
                full
            }
        }),
{
    paging::law_put_together(cfg.callout_text_prefix@, prefix, msg.text@, txt);
}

/// What a poll asks for: to receive exactly where the integration and the receiver are enabled, and
/// to wait as long as the settings say. It finds a change exactly where the last poll did not find
/// the integration as it is now, and warns with it where all targets are off.
pub proof fn law_poll_asks(w: WorkerView, cfg: CfgDapnet)
    ensures
        ({
            let step = poll_step_of(w, &cfg);
            &&& step.action is Receive <==> cfg.enabled && cfg.rwth_core_enabled
            &&& step.action is Disabled <==> !cfg.enabled
            &&& step.sleep_secs == cfg.poll_interval_secs
            &&& step.changed <==> !(w.last_enabled matches Some(e) && e == cfg.enabled)
            &&& step.no_target <==> cfg.enabled && step.changed && !cfg.forward_sds
                && !cfg.forward_callout && !cfg.forward_telegram
            &&& polled(w, &cfg).last_enabled == Some(cfg.enabled)
            &&& polled(w, &cfg).seen == w.seen
        }),
{
}

/// Incident numbers start from their base again when the integration is switched on and when the
/// base is changed. A poll that finds neither, or finds the integration off, leaves them alone.
pub proof fn law_incidents_restart(w: WorkerView, off: CfgDapnet, on: CfgDapnet, later: CfgDapnet)
    requires
        !off.enabled,
        on.enabled,
        later.enabled,
    ensures
        ({
            let base = config::clamped_incident(on.callout_incident_base);
            let next_base = config::clamped_incident(later.callout_incident_base);
            let counted = WorkerView { next_incident: w.next_incident, ..polled(w, &on) };
            &&& polled(w, &off).next_incident == w.next_incident
            &&& polled(w, &off).last_base == w.last_base
            &&& polled(polled(w, &off), &on).next_incident == base
            &&& w.last_enabled is None ==> polled(w, &on).next_incident == base
            &&& polled(counted, &later).next_incident == if next_base == base {
                w.next_incident
            } else {
                next_base
            }
        }),
{
}

/// A new message is remembered last, behind those that were remembered before it, of which the
/// oldest are forgotten until no more than `limit` are left. A message that is remembered already
/// changes nothing.
pub proof fn law_remembered_order(seen: Seq<Seq<char>>, id: Seq<char>, limit: nat)
    ensures
        ({
            let r = remembered(seen, id, limit);
            let n = r.len();
            &&& seen.contains(id) ==> r == seen
            &&& !seen.contains(id) ==> {
                &&& n == if seen.len() + 1 > limit {
                    limit
                } else {
                    seen.len() + 1
                }
                &&& n > 0 ==> r[n - 1] == id
                &&& forall|i: int|
                    1 <= i < n ==> #[trigger] r[n - 1 - i] == seen[seen.len() - i]
            }
        }),
{
}

} // verus!

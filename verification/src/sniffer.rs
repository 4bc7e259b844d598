//! The frame walker.

use crate::preamble::{
    Gathered, Outcome, SnifferState, FLAG_ACK, FRAME_HEADER, FRAME_HEADERS, FRAME_PRIORITY,
    FRAME_SETTINGS, FRAME_WINDOW_UPDATE, MAX_PRIORITY_FRAMES, PREFACE, SETTING_SIZE, SNIFF_LIMIT,
};
use crate::{hpack, laws, preamble, text};
use vstd::prelude::*;
use vstd::slice::slice_subrange;
use vstd::string::StringExecFns;

verus! {

/// Outcome of handing more bytes to the sniffer.
#[derive(Debug)]
pub enum Feed {
    /// Need more bytes.
    More,
    /// Fingerprint complete.
    Done(String),
    /// Give up; the caller drops the sniffer.
    Abort,
}

impl View for Feed {
    type V = Outcome;

    open spec fn view(&self) -> Outcome {
        match self {
            Feed::More => Outcome::Pending,
            Feed::Done(text) => Outcome::Complete(text@),
            Feed::Abort => Outcome::Refused,
        }
    }
}

/// The outcome that a result of [`Sniffer::parse`] stands for.
pub open spec fn parse_outcome(result: Result<Option<String>, ()>) -> Outcome {
    match result {
        Ok(None) => Outcome::Pending,
        Ok(Some(text)) => Outcome::Complete(text@),
        Err(()) => Outcome::Refused,
    }
}

/// Walks the first frames of a connection. Holds only what the output needs.
pub struct Sniffer {
    buf: Vec<u8>,
    /// Parse cursor into `buf`; everything before it is fully consumed frames.
    pos: usize,
    preface_done: bool,
    seen_settings: bool,
    settings: Vec<(u16, u32)>,
    window_update: Option<u32>,
    priorities: Vec<String>,
}

impl View for Sniffer {
    type V = SnifferState;

    closed spec fn view(&self) -> SnifferState {
        SnifferState {
            buf: self.buf@,
            pos: self.pos as nat,
            preface_done: self.preface_done,
            got: Gathered {
                seen_settings: self.seen_settings,
                settings: self.settings@,
                window_update: self.window_update,
                priorities: text::texts(self.priorities@),
            },
        }
    }
}

/// The 16-bit number at `i`, most significant byte first.
fn read_u16(s: &[u8], i: usize) -> (n: u16)
    requires
        i + 2 <= s@.len(),
    ensures
        n == preamble::be16(s@, i as int),
{
    s[i] as u16 * 0x100 + s[i + 1] as u16
}

/// The 24-bit number at `i`, most significant byte first.
fn read_u24(s: &[u8], i: usize) -> (n: u32)
    requires
        i + 3 <= s@.len(),
    ensures
        n == preamble::be24(s@, i as int),
{
    s[i] as u32 * 0x1_0000 + s[i + 1] as u32 * 0x100 + s[i + 2] as u32
}

/// The 32-bit number at `i`, most significant byte first.
fn read_u32(s: &[u8], i: usize) -> (n: u32)
    requires
        i + 4 <= s@.len(),
    ensures
        n == preamble::be32(s@, i as int),
{
    s[i] as u32 * 0x100_0000 + s[i + 1] as u32 * 0x1_0000 + s[i + 2] as u32 * 0x100 + s[i
        + 3] as u32
}

/// Whether the bytes and the preface are the same as far as both go.
fn agrees_with_preface(bytes: &[u8]) -> (same: bool)
    ensures
        same == preamble::agrees_with_preface(bytes@),
{
    let mut i: usize = 0;
    while i < bytes.len() && i < PREFACE.len()
        invariant
            i <= bytes@.len(),
            i <= PREFACE@.len(),
            forall|j: int| 0 <= j < i ==> bytes@[j] == #[trigger] PREFACE@[j],
        decreases bytes@.len() - i,
    {
        if bytes[i] != PREFACE[i] {
            assert(bytes@[i as int] != PREFACE@[i as int]);
            return false;
        }
        i += 1;
    }
    true
}

/// Appends the settings of a SETTINGS payload.
fn push_settings(settings: &mut Vec<(u16, u32)>, payload: &[u8])
    requires
        payload@.len() % SETTING_SIZE as nat == 0,
    ensures
        final(settings)@ == old(settings)@ + preamble::settings_of(payload@),
{
    let count: usize = payload.len() / SETTING_SIZE;
    let mut k: usize = 0;
    while k < count
        invariant
            k <= count,
            count == payload@.len() / SETTING_SIZE as nat,
            count * SETTING_SIZE <= payload.len(),
            settings@ == old(settings)@ + preamble::settings_of(payload@).take(k as int),
        decreases count - k,
    {
        let at: usize = SETTING_SIZE * k;
        settings.push((read_u16(payload, at), read_u32(payload, at + 2)));
        proof {
            let all = preamble::settings_of(payload@);
            assert(all.take(k + 1) =~= all.take(k as int).push(all[k as int]));
        }
        k += 1;
    }
    assert(preamble::settings_of(payload@).take(count as int) =~= preamble::settings_of(payload@));
}

/// The text of a PRIORITY frame.
fn priority_text(stream_id: u32, payload: &[u8]) -> (out: String)
    requires
        payload@.len() == 5,
    ensures
        out@ == preamble::priority_text(stream_id as nat, payload@),
{
    let dependency: u32 = read_u32(payload, 0);
    let mut out = String::new();
    text::push_decimal(&mut out, stream_id);
    out.push(':');
    text::push_decimal(&mut out, dependency / 0x8000_0000);
    out.push(':');
    text::push_decimal(&mut out, dependency % 0x8000_0000);
    out.push(':');
    text::push_decimal(&mut out, payload[4] as u32 + 1);
    proof {
        text::lemma_join_four(
            text::decimal(stream_id as nat),
            text::decimal((dependency / 0x8000_0000) as nat),
            text::decimal((dependency % 0x8000_0000) as nat),
            text::decimal((payload@[4] + 1) as nat),
            ':',
        );
    }
    out
}

impl Sniffer {
    /// A sniffer that has received nothing.
    pub fn new() -> (sniffer: Self)
        ensures
            sniffer@ == preamble::unread(Seq::empty()),
            preamble::live(sniffer@),
    {
        let sniffer = Sniffer {
            buf: Vec::new(),
            pos: 0,
            preface_done: false,
            seen_settings: false,
            settings: Vec::new(),
            window_update: None,
            priorities: Vec::new(),
        };
        assert(sniffer@ =~= preamble::unread(Seq::empty()));
        sniffer
    }

    /// How many bytes are buffered.
    pub fn buffered(&self) -> (n: usize)
        ensures
            n == self@.buf.len(),
    {
        self.buf.len()
    }

    /// Renders the fingerprint: settings, window update, priorities and
    /// pseudo-header order.
    pub fn render(&self, pseudo: &str) -> (out: String)
        ensures
            out@ == preamble::fingerprint(self@.got, pseudo@),
    {
        let ghost got = self@.got;
        let ghost parts = got.settings.map_values(|s: (u16, u32)| preamble::setting_text(s));
        let mut out = String::new();
        let mut i: usize = 0;
        while i < self.settings.len()
            invariant
                i <= self.settings@.len(),
                parts == self.settings@.map_values(
                    |s: (u16, u32)| preamble::setting_text(s),
                ),
                out@ == text::join(parts.take(i as int), ';'),
            decreases self.settings@.len() - i,
        {
            if i > 0 {
                out.push(';');
            }
            let ghost before = out@;
            let (id, value) = self.settings[i];
            text::push_decimal(&mut out, id as u32);
            out.push(':');
            text::push_decimal(&mut out, value);
            proof {
                text::lemma_join_two(text::decimal(id as nat), text::decimal(value as nat), ':');
                assert(out@ =~= before + preamble::setting_text((id, value)));
                let next = parts.take(i + 1);
                assert(next.drop_last() =~= parts.take(i as int));
                assert(next.last() == preamble::setting_text((id, value)));
            }
            i += 1;
        }
        assert(parts.take(i as int) =~= parts);
        assert(out@ == preamble::settings_component(got));
        out.push('|');
        text::push_decimal(
            &mut out,
            match self.window_update {
                Some(increment) => increment,
                None => 0,
            },
        );
        out.push('|');
        if self.priorities.len() == 0 {
            out.push('0');
        } else {
            let priorities = text::join_strings(&self.priorities, ',');
            out.append(priorities.as_str());
        }
        out.push('|');
        out.append(pseudo);
        proof {
            text::lemma_join_four(
                preamble::settings_component(got),
                preamble::window_component(got),
                preamble::priority_component(got),
                pseudo@,
                '|',
            );
            assert(out@ =~= preamble::fingerprint(got, pseudo@));
        }
        out
    }

    /// Takes one frame into account, whose payload is buffered from `from` up to
    /// `to`. `Ok(None)` means that it was gathered or passed over, `Ok(Some(_))`
    /// that it completed the fingerprint, `Err(())` that it is malformed.
    fn absorb(
        &mut self,
        kind: u8,
        flags: u8,
        stream_id: u32,
        from: usize,
        to: usize,
    ) -> (result: Result<Option<String>, ()>)
        requires
            from <= to <= old(self)@.buf.len(),
        ensures
            match preamble::effect(
                old(self)@.got,
                (preamble::Frame {
                    kind,
                    flags,
                    stream: stream_id as nat,
                    payload: old(self)@.buf.subrange(from as int, to as int),
                }),
            ) {
                preamble::Effect::Gather(next) => result is Ok && result->Ok_0 is None && final(self)@
                    == (SnifferState { got: next, ..old(self)@ }),
                preamble::Effect::Finish(text) => result is Ok && result->Ok_0 is Some
                    && result->Ok_0->Some_0@ == text && final(self)@ == old(self)@,
                preamble::Effect::Refuse => result is Err && final(self)@ == old(self)@,
            },
    {
        reveal(preamble::effect);
        let ghost got = self@.got;
        let payload = slice_subrange(self.buf.as_slice(), from, to);
        let len: usize = to - from;
        if kind == FRAME_SETTINGS {
            if len % SETTING_SIZE != 0 {
                return Err(());
            }
            if flags & FLAG_ACK == 0 && !self.seen_settings {
                self.seen_settings = true;
                push_settings(&mut self.settings, payload);
            }
        } else if kind == FRAME_WINDOW_UPDATE {
            if len != 4 {
                return Err(());
            }
            if stream_id == 0 && self.window_update.is_none() {
                self.window_update = Some(read_u32(payload, 0) % 0x8000_0000);
            }
        } else if kind == FRAME_PRIORITY {
            if len != 5 {
                return Err(());
            }
            if self.priorities.len() < MAX_PRIORITY_FRAMES {
                self.priorities.push(priority_text(stream_id, payload));
                assert(self@.got.priorities =~= got.priorities.push(
                    preamble::priority_text(stream_id as nat, payload@),
                ));
            }
        } else if kind == FRAME_HEADERS {
            // The first HEADERS frame ends the preamble: everything that the
            // fingerprint needs has arrived.
            let order = match hpack::pseudo_order(payload, flags) {
                Some(order) => order,
                None => String::new(),
            };
            return Ok(Some(self.render(order.as_str())));
        }
        Ok(None)
    }

    /// Walks the buffered frames from the cursor on.
    fn walk(&mut self) -> (result: Result<Option<String>, ()>)
        requires
            old(self)@.pos <= old(self)@.buf.len(),
        ensures
            ({
                let s = preamble::scan(
                    old(self)@.got,
                    old(self)@.buf.skip(old(self)@.pos as int),
                );
                &&& parse_outcome(result) == s.outcome
                &&& final(self)@ == (SnifferState {
                    pos: old(self)@.pos + s.used,
                    got: s.got,
                    ..old(self)@
                })
            }),
    {
        let ghost start = self@;
        let ghost whole = preamble::scan(start.got, start.buf.skip(start.pos as int));
        loop
            invariant
                whole == preamble::scan(start.got, start.buf.skip(start.pos as int)),
                start == old(self)@,
                self@.buf == start.buf,
                self@.preface_done == start.preface_done,
                start.pos <= self@.pos <= start.buf.len(),
                ({
                    let tail = preamble::scan(self@.got, start.buf.skip(self@.pos as int));
                    &&& whole.outcome == tail.outcome
                    &&& whole.got == tail.got
                    &&& whole.used == self@.pos - start.pos + tail.used
                }),
            decreases start.buf.len() - self@.pos,
        {
            let rest = slice_subrange(self.buf.as_slice(), self.pos, self.buf.len());
            assert(rest@ =~= start.buf.skip(self.pos as int));
            if rest.len() < FRAME_HEADER {
                return Ok(None);
            }
            // Frame header, RFC 9113 section 4.1: 24-bit length, 8-bit type, 8-bit
            // flags, one reserved bit and a 31-bit stream id.
            let len: usize = read_u24(rest, 0) as usize;
            let kind: u8 = rest[3];
            let flags: u8 = rest[4];
            let stream_id: u32 = read_u32(rest, 5) % 0x8000_0000;
            if len > SNIFF_LIMIT {
                // Cannot be buffered within the bound; stop now rather than
                // accumulate until the limit trips.
                return Err(());
            }
            if rest.len() < FRAME_HEADER + len {
                return Ok(None);
            }
            let next: usize = self.pos + FRAME_HEADER + len;
            let ghost frame = preamble::first_frame(rest@);
            assert(start.buf.subrange(next - len, next as int) =~= frame.payload);
            if let Some(text) = self.absorb(kind, flags, stream_id, next - len, next)? {
                return Ok(Some(text));
            }
            self.pos = next;
            assert(rest@.skip(FRAME_HEADER + len) =~= start.buf.skip(next as int));
        }
    }

    /// Looks at the buffered bytes. `Ok(None)` means that more are needed,
    /// `Err(())` that there will be no fingerprint.
    pub fn parse(&mut self) -> (result: Result<Option<String>, ()>)
        requires
            preamble::readable(old(self)@),
        ensures
            (parse_outcome(result), final(self)@) == preamble::parsed(old(self)@),
    {
        let ghost start = self@;
        if !self.preface_done {
            // Give up as early as the bytes diverge, so that plain HTTP/1 traffic
            // costs one comparison, not a buffer.
            if !agrees_with_preface(self.buf.as_slice()) {
                return Err(());
            }
            if self.buf.len() < PREFACE.len() {
                return Ok(None);
            }
            self.preface_done = true;
            self.pos = PREFACE.len();
        }
        self.walk()
    }

    /// Takes in more bytes and looks at what has arrived so far.
    pub fn feed(&mut self, data: &[u8]) -> (outcome: Feed)
        requires
            old(self)@.buf.len() + data@.len() <= SNIFF_LIMIT ==> preamble::readable(
                SnifferState { buf: old(self)@.buf + data@, ..old(self)@ },
            ),
        ensures
            (outcome@, final(self)@) == preamble::fed(old(self)@, data@),
            outcome is More ==> preamble::readable(final(self)@),
            preamble::live(old(self)@) ==> outcome@ == preamble::verdict(
                old(self)@.buf + data@,
            ),
            preamble::live(old(self)@) && outcome is More ==> preamble::live(final(self)@),
    {
        proof {
            let joined = SnifferState { buf: self@.buf + data@, ..self@ };
            let start = if joined.preface_done {
                joined.pos
            } else {
                PREFACE@.len()
            };
            laws::lemma_scan_used(joined.got, joined.buf.skip(start as int));
            if preamble::live(self@) {
                laws::live_state_is_determined_by_its_bytes(self@, data@);
            }
        }
        if data.len() > SNIFF_LIMIT || self.buf.len() > SNIFF_LIMIT - data.len() {
            return Feed::Abort;
        }
        let ghost before = self@;
        self.buf.extend_from_slice(data);
        assert(self.buf@ =~= before.buf + data@);
        match self.parse() {
            Ok(Some(text)) => {
                self.buf = Vec::new();
                Feed::Done(text)
            },
            Ok(None) => Feed::More,
            Err(()) => {
                self.buf = Vec::new();
                Feed::Abort
            },
        }
    }
}

} // verus!

//! Per-connection lifecycle: liveness detection and frame dispatch.
//!
//! A [`SocketSession`] owns one physical connection from accept to close.
//! Time is abstract: the transport layer passes in a monotonic tick count.
//! On every heartbeat interval the session either emits a liveness probe
//! or, when the peer has been silent past the timeout window, moves to
//! `Closing` and asks for a disconnect — the only timer-driven
//! transition. Inbound frames are decoded into actions for the caller:
//! answer a ping, forward text to the registry, or tear the connection
//! down.

use vstd::prelude::*;

verus! {

/// Ticks between liveness probes.
pub const HEARTBEAT_INTERVAL: u64 = 5;

/// Silence longer than this many ticks forces a disconnect.
pub const CLIENT_TIMEOUT: u64 = 10;

/// Lifecycle phase of one connection.
#[derive(Clone, Copy, Debug, PartialEq, Eq, Structural)]
pub enum Phase {
    /// Accepted, not yet registered with the registry.
    Connecting,
    /// Registered; frames flow.
    Active,
    /// Tearing down; the registry must be told.
    Closing,
    /// Fully torn down. Terminal.
    Closed,
}

/// One inbound frame from the transport.
#[derive(Debug, PartialEq, Eq)]
pub enum InboundFrame {
    Ping(Vec<u8>),
    Pong(Vec<u8>),
    Text(Vec<u8>),
    Binary(Vec<u8>),
    Close,
    Continuation,
    Nop,
}

/// What the transport layer must do with an inbound frame.
#[derive(Debug, PartialEq, Eq)]
pub enum FrameAction {
    /// Nothing.
    Ignore,
    /// Echo a pong carrying the ping's payload.
    Pong(Vec<u8>),
    /// Hand the text to the registry as a client event.
    ForwardText(Vec<u8>),
    /// Hand the bytes to the registry; they are observed, not decoded.
    ForwardBinary(Vec<u8>),
    /// Close the connection and notify the registry of disconnect.
    CloseConnection,
}

/// What a heartbeat tick demands.
#[derive(Clone, Copy, Debug, PartialEq, Eq, Structural)]
pub enum HeartbeatAction {
    /// Send a liveness probe to the peer.
    Ping,
    /// The peer timed out: close and notify the registry.
    Disconnect,
}

/// State of one connection's lifecycle.
#[derive(Debug)]
pub struct SocketSession {
    /// Registry-assigned identifier; `0` until registration completes.
    pub id: usize,
    /// Tick of the last liveness signal from the peer.
    pub hb: u64,
    /// Optional display name; unused by the core.
    pub name: Option<String>,
    /// Current lifecycle phase.
    pub phase: Phase,
}

impl SocketSession {
    /// A freshly accepted connection, not yet registered.
    pub fn new(now: u64) -> (r: SocketSession)
        ensures
            r.id == 0,
            r.hb == now,
            r.name is None,
            r.phase is Connecting,
    {
        SocketSession { id: 0, hb: now, name: None, phase: Phase::Connecting }
    }

    /// Registration succeeded: record the assigned identifier and go
    /// active.
    pub fn activate(&mut self, id: usize)
        requires
            old(self).phase is Connecting,
        ensures
            final(self).id == id,
            final(self).phase is Active,
            final(self).hb == old(self).hb,
            final(self).name == old(self).name,
    {
        self.id = id;
        self.phase = Phase::Active;
    }

    /// Begin teardown: registration failure, peer close, transport
    /// error, or supervising shutdown.
    pub fn begin_close(&mut self)
        ensures
            final(self).phase is Closing,
            final(self).id == old(self).id,
            final(self).hb == old(self).hb,
            final(self).name == old(self).name,
    {
        self.phase = Phase::Closing;
    }

    /// Teardown done: the registry has been notified and the transport
    /// handle released. Terminal.
    pub fn finish_close(&mut self)
        requires
            old(self).phase is Closing,
        ensures
            final(self).phase is Closed,
            final(self).id == old(self).id,
            final(self).hb == old(self).hb,
            final(self).name == old(self).name,
    {
        self.phase = Phase::Closed;
    }

    /// One heartbeat tick at time `now`: past the timeout window the
    /// session moves to `Closing` and demands a disconnect; otherwise a
    /// liveness probe goes out and nothing changes.
    pub fn heartbeat(&mut self, now: u64) -> (a: HeartbeatAction)
        requires
            old(self).hb <= now,
        ensures
            now - old(self).hb > CLIENT_TIMEOUT ==> a is Disconnect && final(self).phase
                is Closing,
            now - old(self).hb <= CLIENT_TIMEOUT ==> a is Ping
                && final(self).phase == old(self).phase,
            final(self).id == old(self).id,
            final(self).hb == old(self).hb,
            final(self).name == old(self).name,
    {
        if now - self.hb > CLIENT_TIMEOUT {
            self.phase = Phase::Closing;
            HeartbeatAction::Disconnect
        } else {
            HeartbeatAction::Ping
        }
    }

    /// Dispatch one inbound frame at time `now`. Liveness frames refresh
    /// the liveness clock (a ping is answered in kind); text and binary
    /// are forwarded verbatim; a close or an unsupported continuation
    /// frame begins teardown.
    pub fn handle_frame(&mut self, frame: InboundFrame, now: u64) -> (a: FrameAction)
        ensures
            final(self).id == old(self).id,
            final(self).name == old(self).name,
            match frame {
                InboundFrame::Ping(p) => a == FrameAction::Pong(p) && final(self).hb == now
                    && final(self).phase == old(self).phase,
                InboundFrame::Pong(_) => a is Ignore && final(self).hb == now && final(self).phase
                    == old(self).phase,
                InboundFrame::Text(tx) => a == FrameAction::ForwardText(tx) && final(self).hb
                    == old(self).hb && final(self).phase == old(self).phase,
                InboundFrame::Binary(b) => a == FrameAction::ForwardBinary(b) && final(self).hb
                    == old(self).hb && final(self).phase == old(self).phase,
                InboundFrame::Close => a is CloseConnection && final(self).hb == old(self).hb
                    && final(self).phase is Closing,
                InboundFrame::Continuation => a is CloseConnection
                    && final(self).hb == old(self).hb && final(self).phase is Closing,
                InboundFrame::Nop => a is Ignore && final(self).hb == old(self).hb
                    && final(self).phase == old(self).phase,
            },
    {
        match frame {
            InboundFrame::Ping(p) => {
                self.hb = now;
                FrameAction::Pong(p)
            },
            InboundFrame::Pong(_) => {
                self.hb = now;
                FrameAction::Ignore
            },
            InboundFrame::Text(tx) => FrameAction::ForwardText(tx),
            InboundFrame::Binary(b) => FrameAction::ForwardBinary(b),
            InboundFrame::Close => {
                self.phase = Phase::Closing;
                FrameAction::CloseConnection
            },
            InboundFrame::Continuation => {
                self.phase = Phase::Closing;
                FrameAction::CloseConnection
            },
            InboundFrame::Nop => FrameAction::Ignore,
        }
    }
}

} // verus!

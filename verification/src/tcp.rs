//! TCP seen from the application: the line echo rule of an echo server, and
//! the two sides of a simulated three-way handshake, data exchange and
//! close, each a state machine that consumes one segment and says which
//! segments to send back. Moving segments between the sides is the
//! caller's job.
use vstd::prelude::*;

verus! {

/// Initial sequence number of the simulated client.
pub const CLIENT_ISN: u32 = 100;

/// Initial sequence number of the simulated server.
pub const SERVER_ISN: u32 = 300;

/// The echo server's answer to one received line (without its line end):
/// the line back with a `\n`, or `None` for an empty line, which asks to
/// close the connection.
pub fn echo_reply(line: &str) -> (r: Option<String>)
    ensures
        line@.len() == 0 ==> r is None,
        line@.len() > 0 ==> (r matches Some(s) && s@ == line@ + "\n"@),
{
    if line.is_empty() {
        None
    } else {
        let mut s = String::from_str(line);
        s.append("\n");
        Some(s)
    }
}

/// A simulated TCP segment, named by its flags.
pub enum TcpFlag {
    /// Connection request.
    Syn { seq: u32 },
    /// Connection request and acknowledgement.
    SynAck { seq: u32, ack: u32 },
    /// Acknowledgement.
    Ack { seq: u32, ack: u32 },
    /// Data.
    Data { seq: u32, payload: String },
    /// Close request.
    Fin { seq: u32 },
}

/// Connection states (part of the TCP state diagram).
#[derive(Clone, Copy, Debug, PartialEq, Eq, Structural)]
pub enum TcpState {
    Closed,
    Listen,
    SynSent,
    SynReceived,
    Established,
    FinWait,
}

impl TcpState {
    /// The state's conventional name, such as `SYN_SENT`.
    pub fn name(&self) -> (s: &'static str)
        ensures
            s@ == state_name(*self),
    {
        match self {
            TcpState::Closed => "CLOSED",
            TcpState::Listen => "LISTEN",
            TcpState::SynSent => "SYN_SENT",
            TcpState::SynReceived => "SYN_RECEIVED",
            TcpState::Established => "ESTABLISHED",
            TcpState::FinWait => "FIN_WAIT",
        }
    }
}

/// The conventional name of a state.
pub open spec fn state_name(s: TcpState) -> Seq<char> {
    match s {
        TcpState::Closed => "CLOSED"@,
        TcpState::Listen => "LISTEN"@,
        TcpState::SynSent => "SYN_SENT"@,
        TcpState::SynReceived => "SYN_RECEIVED"@,
        TcpState::Established => "ESTABLISHED"@,
        TcpState::FinWait => "FIN_WAIT"@,
    }
}

/// Which segment each side waits for next.
#[derive(Clone, Copy, Debug, PartialEq, Eq, Structural)]
pub enum Phase {
    AwaitSyn,
    AwaitSynAck,
    AwaitAck,
    AwaitData,
    AwaitFin,
    Done,
}

/// Sequence numbers of received segments that the machines add one to stay
/// below `u32::MAX`.
pub open spec fn seq_fits(msg: Option<TcpFlag>) -> bool {
    match msg {
        Some(TcpFlag::Syn { seq }) => seq < u32::MAX,
        Some(TcpFlag::SynAck { seq, .. }) => seq < u32::MAX,
        Some(TcpFlag::Fin { seq }) => seq < u32::MAX,
        _ => true,
    }
}

/// Whether a received segment leaves room for the sequence number that the
/// machines add one to, as `on_segment` needs.
pub fn segment_fits(msg: &Option<TcpFlag>) -> (b: bool)
    ensures
        b == seq_fits(*msg),
{
    match msg {
        Some(TcpFlag::Syn { seq }) => *seq < u32::MAX,
        Some(TcpFlag::SynAck { seq, .. }) => *seq < u32::MAX,
        Some(TcpFlag::Fin { seq }) => *seq < u32::MAX,
        _ => true,
    }
}

/// The server side: state, next expected segment.
pub struct Server {
    pub state: TcpState,
    pub phase: Phase,
}

/// The server's move on receiving `msg` (`None` when nothing arrives):
/// new state, new phase, segments to send. A segment of the wrong kind is
/// consumed without effect, except that before the handshake it ends the
/// exchange.
pub open spec fn server_next(state: TcpState, phase: Phase, msg: Option<TcpFlag>) -> (
    TcpState,
    Phase,
    Seq<TcpFlag>,
) {
    match phase {
        Phase::AwaitSyn => match msg {
            Some(TcpFlag::Syn { seq }) => (
                TcpState::SynReceived,
                Phase::AwaitAck,
                seq![TcpFlag::SynAck { seq: SERVER_ISN, ack: (seq + 1) as u32 }],
            ),
            _ => (state, Phase::Done, Seq::empty()),
        },
        Phase::AwaitAck => match msg {
            Some(TcpFlag::Ack { .. }) => (TcpState::Established, Phase::AwaitData, Seq::empty()),
            _ => (state, Phase::AwaitData, Seq::empty()),
        },
        Phase::AwaitData => match msg {
            Some(TcpFlag::Data { payload, .. }) => (
                state,
                Phase::AwaitFin,
                seq![TcpFlag::Data { seq: (SERVER_ISN + 1) as u32, payload }],
            ),
            _ => (state, Phase::AwaitFin, Seq::empty()),
        },
        Phase::AwaitFin => match msg {
            Some(TcpFlag::Fin { seq }) => (
                TcpState::Closed,
                Phase::Done,
                seq![
                    TcpFlag::Ack { seq: (SERVER_ISN + 2) as u32, ack: (seq + 1) as u32 },
                    TcpFlag::Fin { seq: (SERVER_ISN + 3) as u32 },
                ],
            ),
            _ => (state, Phase::Done, Seq::empty()),
        },
        _ => (state, phase, Seq::empty()),
    }
}

impl Server {
    /// A closed server.
    pub fn new() -> (s: Self)
        ensures
            s.state == TcpState::Closed,
            s.phase == Phase::AwaitSyn,
    {
        Server { state: TcpState::Closed, phase: Phase::AwaitSyn }
    }

    /// Starts listening for a connection request.
    pub fn listen(&mut self)
        ensures
            final(self).state == TcpState::Listen,
            final(self).phase == old(self).phase,
    {
        self.state = TcpState::Listen;
    }

    /// Consumes one received segment and returns the segments to send.
    pub fn on_segment(&mut self, msg: Option<TcpFlag>) -> (out: Vec<TcpFlag>)
        requires
            seq_fits(msg),
        ensures
            (final(self).state, final(self).phase, out@) == server_next(
                old(self).state,
                old(self).phase,
                msg,
            ),
    {
        let mut out: Vec<TcpFlag> = Vec::new();
        match self.phase {
            Phase::AwaitSyn => match msg {
                Some(TcpFlag::Syn { seq }) => {
                    self.state = TcpState::SynReceived;
                    self.phase = Phase::AwaitAck;
                    out.push(TcpFlag::SynAck { seq: SERVER_ISN, ack: seq + 1 });
                },
                _ => {
                    self.phase = Phase::Done;
                },
            },
            Phase::AwaitAck => {
                if let Some(TcpFlag::Ack { .. }) = msg {
                    self.state = TcpState::Established;
                }
                self.phase = Phase::AwaitData;
            },
            Phase::AwaitData => {
                if let Some(TcpFlag::Data { payload, .. }) = msg {
                    out.push(TcpFlag::Data { seq: SERVER_ISN + 1, payload });
                }
                self.phase = Phase::AwaitFin;
            },
            Phase::AwaitFin => {
                if let Some(TcpFlag::Fin { seq }) = msg {
                    out.push(TcpFlag::Ack { seq: SERVER_ISN + 2, ack: seq + 1 });
                    out.push(TcpFlag::Fin { seq: SERVER_ISN + 3 });
                    self.state = TcpState::Closed;
                }
                self.phase = Phase::Done;
            },
            _ => {},
        }
        proof {
            assert(out@ =~= server_next(old(self).state, old(self).phase, msg).2);
        }
        out
    }
}

/// The client side: state, next expected segment, and the message it
/// sends once connected.
pub struct Client {
    pub state: TcpState,
    pub phase: Phase,
    pub message: String,
}

/// The client's move on receiving `msg`: new state, new phase, segments to
/// send. Its own sends do not wait on the answers: the data follows the
/// handshake and the close follows the echo whether or not the expected
/// segment came.
pub open spec fn client_next(state: TcpState, phase: Phase, message: String, msg: Option<TcpFlag>) -> (
    TcpState,
    Phase,
    Seq<TcpFlag>,
) {
    match phase {
        Phase::AwaitSynAck => {
            let data = TcpFlag::Data { seq: (CLIENT_ISN + 1) as u32, payload: message };
            match msg {
                Some(TcpFlag::SynAck { seq, .. }) => (
                    TcpState::Established,
                    Phase::AwaitData,
                    seq![
                        TcpFlag::Ack { seq: (CLIENT_ISN + 1) as u32, ack: (seq + 1) as u32 },
                        data,
                    ],
                ),
                _ => (state, Phase::AwaitData, seq![data]),
            }
        },
        Phase::AwaitData => (
            TcpState::FinWait,
            Phase::AwaitAck,
            seq![TcpFlag::Fin { seq: (CLIENT_ISN + 2) as u32 }],
        ),
        Phase::AwaitAck => (state, Phase::AwaitFin, Seq::empty()),
        Phase::AwaitFin => match msg {
            Some(TcpFlag::Fin { .. }) => (TcpState::Closed, Phase::Done, Seq::empty()),
            _ => (state, Phase::Done, Seq::empty()),
        },
        _ => (state, phase, Seq::empty()),
    }
}

impl Client {
    /// A closed client that will send `message`.
    pub fn new(message: String) -> (c: Self)
        ensures
            c.state == TcpState::Closed,
            c.phase == Phase::AwaitSynAck,
            c.message == message,
    {
        Client { state: TcpState::Closed, phase: Phase::AwaitSynAck, message }
    }

    /// Sends the connection request.
    pub fn connect(&mut self) -> (syn: TcpFlag)
        ensures
            final(self).state == TcpState::SynSent,
            final(self).phase == old(self).phase,
            final(self).message == old(self).message,
            syn == (TcpFlag::Syn { seq: CLIENT_ISN }),
    {
        self.state = TcpState::SynSent;
        TcpFlag::Syn { seq: CLIENT_ISN }
    }

    /// Consumes one received segment and returns the segments to send.
    pub fn on_segment(&mut self, msg: Option<TcpFlag>) -> (out: Vec<TcpFlag>)
        requires
            seq_fits(msg),
        ensures
            (final(self).state, final(self).phase, out@) == client_next(
                old(self).state,
                old(self).phase,
                old(self).message,
                msg,
            ),
            final(self).message == old(self).message,
    {
        let mut out: Vec<TcpFlag> = Vec::new();
        match self.phase {
            Phase::AwaitSynAck => {
                if let Some(TcpFlag::SynAck { seq, .. }) = msg {
                    out.push(TcpFlag::Ack { seq: CLIENT_ISN + 1, ack: seq + 1 });
                    self.state = TcpState::Established;
                }
                out.push(TcpFlag::Data { seq: CLIENT_ISN + 1, payload: self.message.clone() });
                self.phase = Phase::AwaitData;
            },
            Phase::AwaitData => {
                out.push(TcpFlag::Fin { seq: CLIENT_ISN + 2 });
                self.state = TcpState::FinWait;
                self.phase = Phase::AwaitAck;
            },
            Phase::AwaitAck => {
                self.phase = Phase::AwaitFin;
            },
            Phase::AwaitFin => {
                if let Some(TcpFlag::Fin { .. }) = msg {
                    self.state = TcpState::Closed;
                }
                self.phase = Phase::Done;
            },
            _ => {},
        }
        proof {
            assert(out@ =~= client_next(old(self).state, old(self).phase, old(self).message, msg).2);
        }
        out
    }
}

/// When each side receives exactly what the other sent, in order, the
/// handshake brings both sides to ESTABLISHED, the server echoes the
/// client's message unchanged, and the close brings both to CLOSED with
/// nothing left to wait for.
pub proof fn lossless_exchange(message: String)
    ensures
        ({
            let (s1, p1, o1) = server_next(
                TcpState::Listen,
                Phase::AwaitSyn,
                Some(TcpFlag::Syn { seq: CLIENT_ISN }),
            );
            let (c1, q1, r1) = client_next(
                TcpState::SynSent,
                Phase::AwaitSynAck,
                message,
                Some(o1[0]),
            );
            let (s2, p2, o2) = server_next(s1, p1, Some(r1[0]));
            let (s3, p3, o3) = server_next(s2, p2, Some(r1[1]));
            let (c2, q2, r2) = client_next(c1, q1, message, Some(o3[0]));
            let (s4, p4, o4) = server_next(s3, p3, Some(r2[0]));
            let (c3, q3, r3) = client_next(c2, q2, message, Some(o4[0]));
            let (c4, q4, r4) = client_next(c3, q3, message, Some(o4[1]));
            &&& c1 == TcpState::Established
            &&& s2 == TcpState::Established
            &&& o3 == seq![TcpFlag::Data { seq: (SERVER_ISN + 1) as u32, payload: message }]
            &&& s4 == TcpState::Closed
            &&& c4 == TcpState::Closed
            &&& p4 == Phase::Done
            &&& q4 == Phase::Done
        }),
{
}

} // verus!

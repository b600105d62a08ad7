//! The announcement of this node to its directory peers: what is sent, and
//! in which order the peers are tried.
use vstd::prelude::*;
use crate::text::chars_of;
use crate::text::string_of;

verus! {

/// The seconds between two announcement cycles.
pub const ANNOUNCE_INTERVAL: u64 = 10;

/// What this node publishes of itself. A peer keeps one record for each
/// name: it creates the record if it has none and overwrites it if it has.
#[derive(Debug)]
pub struct Announcement {
    pub name: String,
    pub ip: String,
    pub port: String,
    pub path: String,
}

/// The lines of the instruction that publishes a record.
pub open spec fn script_lines(name: Seq<char>, ip: Seq<char>, port: Seq<char>, path: Seq<char>) -> Seq<
    Seq<char>,
> {
    seq![
        "$->$server_exists = inner root->web_server "@ + name + "<-name"@,
        "$->$web_server = if $->$server_exists ?"@,
        "$->$web_server->name = = "@ + name + " _"@,
        "$->$web_server->ip = = "@ + ip + " _"@,
        "$->$web_server->port = = "@ + port + " _"@,
        "$->$web_server->path = = "@ + path + " _"@,
        "root->web_server += left $->$web_server $->$server_exists"@,
    ]
}

/// The lines with `sep` between each two of them.
pub open spec fn joined(lines: Seq<Seq<char>>, sep: Seq<char>) -> Seq<char>
    decreases lines.len(),
{
    if lines.len() == 0 {
        Seq::<char>::empty()
    } else if lines.len() == 1 {
        lines[0]
    } else {
        joined(lines.drop_last(), sep) + sep + lines.last()
    }
}

/// The instruction as the first transport carries it: its lines parted by a
/// backslash and the letter n.
pub open spec fn script_of(a: Announcement) -> Seq<char> {
    joined(script_lines(a.name@, a.ip@, a.port@, a.path@), "\\n"@)
}

/// The body of the first transport's request: an object with the
/// instruction as its only name.
pub open spec fn primary_body_of(a: Announcement) -> Seq<char> {
    "{\""@ + script_of(a) + "\": null}"@
}

/// `s` with every backslash that an n follows replaced, together with the
/// n, by a line feed, from left to right.
pub open spec fn unescaped(s: Seq<char>) -> Seq<char>
    decreases s.len(),
{
    if s.len() == 0 {
        Seq::<char>::empty()
    } else if s.len() >= 2 && s[0] == '\\' && s[1] == 'n' {
        seq!['\n'] + unescaped(s.skip(2))
    } else {
        seq![s[0]] + unescaped(s.skip(1))
    }
}

fn framed(before: &str, value: &str, after: &str) -> (line: String)
    ensures
        line@ == before@ + value@ + after@,
{
    let mut line = String::from_str(before);
    line.append(value);
    line.append(after);
    line
}

impl Announcement {
    /// The instruction that publishes this record, for the first transport.
    pub fn script(&self) -> (text: String)
        ensures
            text@ == script_of(*self),
    {
        let sep = "\\n";
        let ghost lines = script_lines(self.name@, self.ip@, self.port@, self.path@);
        let mut text = framed("$->$server_exists = inner root->web_server ", self.name.as_str(), "<-name");
        assert(text@ == joined(lines.take(1), sep@)) by {
            assert(lines.take(1)[0] == lines[0]);
        }
        text.append(sep);
        text.append("$->$web_server = if $->$server_exists ?");
        assert(text@ == joined(lines.take(2), sep@)) by {
            assert(lines.take(2).drop_last() =~= lines.take(1));
        }
        text.append(sep);
        text.append(framed("$->$web_server->name = = ", self.name.as_str(), " _").as_str());
        assert(text@ == joined(lines.take(3), sep@)) by {
            assert(lines.take(3).drop_last() =~= lines.take(2));
        }
        text.append(sep);
        text.append(framed("$->$web_server->ip = = ", self.ip.as_str(), " _").as_str());
        assert(text@ == joined(lines.take(4), sep@)) by {
            assert(lines.take(4).drop_last() =~= lines.take(3));
        }
        text.append(sep);
        text.append(framed("$->$web_server->port = = ", self.port.as_str(), " _").as_str());
        assert(text@ == joined(lines.take(5), sep@)) by {
            assert(lines.take(5).drop_last() =~= lines.take(4));
        }
        text.append(sep);
        text.append(framed("$->$web_server->path = = ", self.path.as_str(), " _").as_str());
        assert(text@ == joined(lines.take(6), sep@)) by {
            assert(lines.take(6).drop_last() =~= lines.take(5));
        }
        text.append(sep);
        text.append("root->web_server += left $->$web_server $->$server_exists");
        assert(text@ == joined(lines, sep@)) by {
            assert(lines.drop_last() =~= lines.take(6));
        }
        text
    }

    /// The body that the first transport sends to a peer.
    pub fn primary_body(&self) -> (body: String)
        ensures
            body@ == primary_body_of(*self),
    {
        framed("{\"", self.script().as_str(), "\": null}")
    }

    /// The instruction as the second transport carries it: that of the first
    /// with its escaped line breaks turned into line feeds.
    pub fn fallback_script(&self) -> (text: String)
        ensures
            text@ == unescaped(script_of(*self)),
    {
        unescape(self.script().as_str())
    }
}

/// Turns every escaped line break of `s` into a line feed.
pub fn unescape(s: &str) -> (text: String)
    ensures
        text@ == unescaped(s@),
{
    let chars = chars_of(s);
    let mut out: Vec<char> = Vec::new();
    let mut i: usize = 0;
    assert(chars@.skip(0) =~= chars@);
    while i < chars.len()
        invariant
            i <= chars@.len(),
            chars@ == s@,
            unescaped(s@) == out@ + unescaped(chars@.skip(i as int)),
        decreases chars@.len() - i,
    {
        let ghost rest = chars@.skip(i as int);
        let ghost before = out@;
        if chars[i] == '\\' && i + 1 < chars.len() && chars[i + 1] == 'n' {
            out.push('\n');
            proof {
                assert(rest.skip(2) =~= chars@.skip(i + 2));
                assert(unescaped(s@) =~= out@ + unescaped(chars@.skip(i + 2)));
            }
            i = i + 2;
        } else {
            out.push(chars[i]);
            proof {
                assert(rest.skip(1) =~= chars@.skip(i + 1));
                assert(unescaped(s@) =~= out@ + unescaped(chars@.skip(i + 1)));
            }
            i = i + 1;
        }
    }
    assert(unescaped(s@) =~= out@);
    string_of(&out)
}

/// What an announcement cycle does next.
#[derive(Clone, Copy, Debug, PartialEq, Eq, Structural)]
pub enum Step {
    /// Try the first transport on the peer with this index.
    Primary { peer: usize },
    /// Try the second transport on the peer with this index.
    Fallback { peer: usize },
    /// Every peer was tried: wait `ANNOUNCE_INTERVAL` seconds, then start
    /// the next cycle.
    Sleep,
}

/// The step that turns to a peer: its first transport, or the wait where
/// the peers are used up.
pub open spec fn step_at(peer: int, peers: int) -> Step {
    if 0 <= peer < peers {
        Step::Primary { peer: peer as usize }
    } else {
        Step::Sleep
    }
}

/// The step that follows `step` once it was carried out, with or without
/// success. A first transport that fails is followed by the second on the
/// same peer; whatever the second does, the next peer is next. A wait is
/// followed by the first peer.
pub open spec fn next_of(step: Step, succeeded: bool, peers: int) -> Step {
    match step {
        Step::Primary { peer } => if succeeded {
            step_at(peer + 1, peers)
        } else {
            Step::Fallback { peer }
        },
        Step::Fallback { peer } => step_at(peer + 1, peers),
        Step::Sleep => step_at(0, peers),
    }
}

/// The step reached from `step` when the steps in between come out as
/// `outcomes` says, one after the other.
pub open spec fn run(step: Step, outcomes: Seq<bool>, peers: int) -> Step
    decreases outcomes.len(),
{
    if outcomes.len() == 0 {
        step
    } else {
        next_of(run(step, outcomes.drop_last(), peers), outcomes.last(), peers)
    }
}

/// The step with which a cycle over `peers` peers begins.
pub fn first_step(peers: usize) -> (step: Step)
    ensures
        step == step_at(0, peers as int),
{
    if peers > 0 {
        Step::Primary { peer: 0 }
    } else {
        Step::Sleep
    }
}

/// The step that follows `step`, given whether it succeeded.
pub fn next_step(step: Step, succeeded: bool, peers: usize) -> (next: Step)
    ensures
        next == next_of(step, succeeded, peers as int),
{
    match step {
        Step::Primary { peer } => {
            if !succeeded {
                Step::Fallback { peer }
            } else if peer < peers && peer + 1 < peers {
                Step::Primary { peer: peer + 1 }
            } else {
                Step::Sleep
            }
        },
        Step::Fallback { peer } => {
            if peer < peers && peer + 1 < peers {
                Step::Primary { peer: peer + 1 }
            } else {
                Step::Sleep
            }
        },
        Step::Sleep => first_step(peers),
    }
}

/// A peer whose two transports both fail does not hold up the next peer:
/// the cycle turns to it right after.
pub proof fn lemma_failure_moves_on(peer: usize, peers: int)
    requires
        peer + 1 < peers,
    ensures
        next_of(next_of(Step::Primary { peer }, false, peers), false, peers) == (Step::Primary {
            peer: (peer + 1) as usize,
        }),
{
}

/// Whatever the outcomes of the steps of a cycle are, every peer gets its
/// first transport tried: the cycle reaches that step after no more than two
/// steps for each peer before it.
pub proof fn lemma_every_peer_is_attempted(peers: int, peer: int, outcomes: Seq<bool>)
    requires
        0 <= peer < peers <= usize::MAX,
        outcomes.len() >= 2 * peer,
    ensures
        exists|k: int|
            0 <= k <= 2 * peer && #[trigger] run(step_at(0, peers), outcomes.take(k), peers) == (Step::Primary {
                peer: peer as usize,
            }),
    decreases peer,
{
    let start = step_at(0, peers);
    if peer == 0 {
        assert(outcomes.take(0).len() == 0);
        assert(run(start, outcomes.take(0), peers) == (Step::Primary { peer: 0usize }));
    } else {
        lemma_every_peer_is_attempted(peers, peer - 1, outcomes);
        let k = choose|k: int|
            0 <= k <= 2 * (peer - 1) && #[trigger] run(start, outcomes.take(k), peers) == (Step::Primary {
                peer: (peer - 1) as usize,
            });
        assert(outcomes.take(k + 1).drop_last() =~= outcomes.take(k));
        assert(outcomes.take(k + 2).drop_last() =~= outcomes.take(k + 1));
        if outcomes[k] {
            assert(run(start, outcomes.take(k + 1), peers) == (Step::Primary { peer: peer as usize }));
        } else {
            assert(run(start, outcomes.take(k + 1), peers) == (Step::Fallback { peer: (peer - 1) as usize }));
            assert(run(start, outcomes.take(k + 2), peers) == (Step::Primary { peer: peer as usize }));
        }
    }
}

/// The entries that name a peer, in order.
pub open spec fn named(entries: Seq<Option<String>>) -> Seq<Seq<char>>
    decreases entries.len(),
{
    if entries.len() == 0 {
        Seq::<Seq<char>>::empty()
    } else {
        match entries.last() {
            Some(uri) => named(entries.drop_last()).push(uri@),
            None => named(entries.drop_last()),
        }
    }
}

/// The peers to announce to: the configured entries without those that are
/// no text.
pub fn usable_peers(entries: &Vec<Option<String>>) -> (peers: Vec<String>)
    ensures
        peers@.len() <= entries@.len(),
        Seq::new(peers@.len(), |i: int| peers@[i]@) == named(entries@),
{
    let mut peers: Vec<String> = Vec::new();
    let mut i: usize = 0;
    assert(entries@.take(0) =~= Seq::<Option<String>>::empty());
    while i < entries.len()
        invariant
            i <= entries@.len(),
            peers@.len() <= i,
            Seq::new(peers@.len(), |j: int| peers@[j]@) == named(entries@.take(i as int)),
        decreases entries@.len() - i,
    {
        let ghost before = Seq::new(peers@.len(), |j: int| peers@[j]@);
        proof {
            assert(entries@.take(i + 1).drop_last() =~= entries@.take(i as int));
        }
        match &entries[i] {
            Some(uri) => {
                peers.push(uri.clone());
                assert(Seq::new(peers@.len(), |j: int| peers@[j]@) =~= before.push(uri@));
            },
            None => {},
        }
        i = i + 1;
    }
    assert(entries@.take(i as int) =~= entries@);
    peers
}

} // verus!

//! The inputs of one tick: for each player the bytes that the session
//! handed over, or the value that they were parsed into.

use vstd::prelude::*;

verus! {

/// The identity of a player in a session.
pub type PlayerId = u16;

/// How far the session has settled the inputs that a tick runs with.
#[derive(Clone, Copy, Debug, PartialEq, Eq, Hash, Structural)]
pub enum Confirmation {
    /// Some input is a guess: the tick may be run again.
    Unconfirmed,
    /// Every input is final, and the tick runs with them for the first
    /// time.
    First,
    /// Every input is final, and the tick has run with them before.
    Subsequent,
}

/// No two entries of `entries` are for the same player.
pub open spec fn players_differ<T>(entries: Seq<(PlayerId, T)>) -> bool {
    forall|i: int, j: int|
        0 <= i < j < entries.len() ==> (#[trigger] entries[i]).0 != (#[trigger] entries[j]).0
}

/// The inputs of the players for one tick, in the order in which the players
/// were first put in.
pub struct PlayerInputs<T> {
    entries: Vec<(PlayerId, T)>,
}

impl<T> PlayerInputs<T> {
    /// The players with their inputs.
    pub closed spec fn entries(&self) -> Seq<(PlayerId, T)> {
        self.entries@
    }

    /// No player occurs twice.
    pub open spec fn wf(&self) -> bool {
        players_differ(self.entries())
    }

    /// Inputs for no player.
    pub fn new() -> (r: Self)
        ensures
            r.wf(),
            r.entries().len() == 0,
    {
        PlayerInputs { entries: Vec::new() }
    }

    /// The number of players.
    pub fn len(&self) -> (n: usize)
        ensures
            n == self.entries().len(),
    {
        self.entries.len()
    }

    /// The player at position `i`.
    pub fn player_at(&self, i: usize) -> (p: PlayerId)
        requires
            i < self.entries().len(),
        ensures
            p == self.entries()[i as int].0,
    {
        self.entries[i].0
    }

    /// The input at position `i`.
    pub fn input_at(&self, i: usize) -> (v: &T)
        requires
            i < self.entries().len(),
        ensures
            *v == self.entries()[i as int].1,
    {
        &self.entries[i].1
    }

    /// The position of `player`, if there is an input for them.
    pub fn position(&self, player: PlayerId) -> (r: Option<usize>)
        ensures
            match r {
                Some(i) => i < self.entries().len() && self.entries()[i as int].0 == player,
                None => forall|i: int|
                    0 <= i < self.entries().len() ==> (#[trigger] self.entries()[i]).0 != player,
            },
    {
        let mut i: usize = 0;
        while i < self.entries.len()
            invariant
                i <= self.entries@.len(),
                forall|j: int| 0 <= j < i ==> (#[trigger] self.entries@[j]).0 != player,
            decreases self.entries@.len() - i,
        {
            if self.entries[i].0 == player {
                return Some(i);
            }
            i = i + 1;
        }
        None
    }

    /// The input of `player`, if there is one.
    pub fn get(&self, player: PlayerId) -> (r: Option<&T>)
        ensures
            match r {
                Some(v) => exists|i: int|
                    0 <= i < self.entries().len() && #[trigger] self.entries()[i] == (player, *v),
                None => forall|i: int|
                    0 <= i < self.entries().len() ==> (#[trigger] self.entries()[i]).0 != player,
            },
    {
        match self.position(player) {
            Some(i) => {
                assert(self.entries()[i as int] == (player, self.entries()[i as int].1));
                Some(&self.entries[i].1)
            },
            None => None,
        }
    }

    /// Makes `input` the input of `player`, in place of the one that there
    /// was, or after those of the other players.
    pub fn insert(&mut self, player: PlayerId, input: T)
        requires
            old(self).wf(),
        ensures
            final(self).wf(),
            final(self).entries() == put_input(old(self).entries(), player, input),
    {
        let ghost before = self.entries@;
        match self.position(player) {
            Some(i) => {
                self.entries.set(i, (player, input));
                proof {
                    lemma_put_input(before, player, input, i as int);
                    assert(self.entries@ =~= before.update(i as int, (player, input)));
                }
            },
            None => {
                self.entries.push((player, input));
                proof {
                    lemma_put_input(before, player, input, before.len() as int);
                }
            },
        }
    }
}

/// The position of the entry for `player`, or the length where there is
/// none.
pub open spec fn index_of_player<T>(entries: Seq<(PlayerId, T)>, player: PlayerId) -> int
    decreases entries.len(),
{
    if entries.len() == 0 {
        0
    } else if entries[0].0 == player {
        0
    } else {
        1 + index_of_player(entries.drop_first(), player)
    }
}

/// `entries` with `input` as the input of `player`.
pub open spec fn put_input<T>(entries: Seq<(PlayerId, T)>, player: PlayerId, input: T) -> Seq<
    (PlayerId, T),
> {
    let i = index_of_player(entries, player);
    if i < entries.len() {
        entries.update(i, (player, input))
    } else {
        entries.push((player, input))
    }
}

/// The first position that holds `player` is the one that `put_input`
/// writes to, and the players stay distinct.
pub proof fn lemma_put_input<T>(entries: Seq<(PlayerId, T)>, player: PlayerId, input: T, i: int)
    requires
        players_differ(entries),
        0 <= i <= entries.len(),
        i < entries.len() ==> entries[i].0 == player,
        forall|j: int| 0 <= j < i ==> (#[trigger] entries[j]).0 != player,
    ensures
        index_of_player(entries, player) == i,
        players_differ(put_input(entries, player, input)),
    decreases entries.len(),
{
    if entries.len() > 0 && i > 0 {
        let rest = entries.drop_first();
        assert forall|a: int, b: int| 0 <= a < b < rest.len() implies (#[trigger] rest[a]).0 != (
        #[trigger] rest[b]).0 by {
            assert(rest[a] == entries[a + 1] && rest[b] == entries[b + 1]);
        }
        assert forall|j: int| 0 <= j < i - 1 implies (#[trigger] rest[j]).0 != player by {
            assert(rest[j] == entries[j + 1]);
        }
        lemma_put_input(rest, player, input, i - 1);
    }
    let after = put_input(entries, player, input);
    assert forall|a: int, b: int| 0 <= a < b < after.len() implies (#[trigger] after[a]).0 != (
    #[trigger] after[b]).0 by {
        if i < entries.len() {
            assert(after[a].0 == entries[a].0 && after[b].0 == entries[b].0);
        } else if b < entries.len() {
            assert(after[a] == entries[a] && after[b] == entries[b]);
        } else {
            assert(after[a] == entries[a]);
        }
    }
}

/// Why the inputs of a tick could not be parsed.
#[derive(Clone, Copy, Debug, PartialEq, Eq, Structural)]
pub enum InputError {
    /// The bytes of this player are not an input.
    Undecodable(PlayerId),
}

/// `decode` can give an input for `bytes`.
pub open spec fn gives_some<I, F: Fn(&Vec<u8>) -> Option<I>>(decode: F, bytes: Vec<u8>) -> bool {
    exists|v: I| call_ensures(decode, (&bytes,), Some(v))
}

/// Parses the bytes of every player with `decode`, in order. At the first
/// player for whose bytes `decode` gives nothing it stops, names the player
/// and returns no inputs.
pub fn parse_inputs<I, F: Fn(&Vec<u8>) -> Option<I>>(
    inputs: &PlayerInputs<Vec<u8>>,
    decode: F,
) -> (result: Result<PlayerInputs<I>, InputError>)
    requires
        inputs.wf(),
        forall|i: int|
            0 <= i < inputs.entries().len() ==> call_requires(
                decode,
                (&(#[trigger] inputs.entries()[i]).1,),
            ),
    ensures
        match result {
            Ok(parsed) => {
                &&& parsed.wf()
                &&& parsed.entries().len() == inputs.entries().len()
                &&& forall|i: int|
                    0 <= i < inputs.entries().len() ==> {
                        &&& (#[trigger] parsed.entries()[i]).0 == inputs.entries()[i].0
                        &&& call_ensures(
                            decode,
                            (&inputs.entries()[i].1,),
                            Some(parsed.entries()[i].1),
                        )
                    }
            },
            Err(InputError::Undecodable(player)) => exists|i: int|
                {
                    &&& 0 <= i < inputs.entries().len()
                    &&& (#[trigger] inputs.entries()[i]).0 == player
                    &&& call_ensures(decode, (&inputs.entries()[i].1,), None::<I>)
                    &&& forall|j: int|
                        0 <= j < i ==> gives_some::<I, F>(
                            decode,
                            (#[trigger] inputs.entries()[j]).1,
                        )
                },
        },
{
    let mut parsed: Vec<(PlayerId, I)> = Vec::new();
    let mut i: usize = 0;
    while i < inputs.len()
        invariant
            i <= inputs.entries().len(),
            inputs.wf(),
            parsed@.len() == i,
            forall|j: int|
                0 <= j < inputs.entries().len() ==> call_requires(
                    decode,
                    (&(#[trigger] inputs.entries()[j]).1,),
                ),
            forall|j: int|
                0 <= j < i ==> {
                    &&& (#[trigger] parsed@[j]).0 == inputs.entries()[j].0
                    &&& call_ensures(decode, (&inputs.entries()[j].1,), Some(parsed@[j].1))
                },
        decreases inputs.entries().len() - i,
    {
        let player = inputs.player_at(i);
        match decode(inputs.input_at(i)) {
            Some(value) => {
                parsed.push((player, value));
            },
            None => {
                proof {
                    assert forall|j: int| 0 <= j < i implies gives_some::<I, F>(
                        decode,
                        (#[trigger] inputs.entries()[j]).1,
                    ) by {
                        assert(call_ensures(
                            decode,
                            (&inputs.entries()[j].1,),
                            Some(parsed@[j].1),
                        ));
                    }
                }
                return Err(InputError::Undecodable(player));
            },
        }
        i = i + 1;
    }
    let result = PlayerInputs { entries: parsed };
    proof {
        assert forall|a: int, b: int| 0 <= a < b < result.entries().len() implies (
        #[trigger] result.entries()[a]).0 != (#[trigger] result.entries()[b]).0 by {
            assert(inputs.entries()[a].0 != inputs.entries()[b].0);
        }
    }
    Ok(result)
}

} // verus!

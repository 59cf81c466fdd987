//! The contract that every stored state type meets.
use vstd::prelude::*;

verus! {

/// A deterministic state machine whose values and write messages can be
/// stored as bytes.
///
/// Its behaviour is stated over views: reads never change the state, and a
/// write is a function of the current state and the message alone, so that
/// replaying the stored writes in order rebuilds the state exactly.
/// Decoding an encoded value gives the value back.
pub trait Acidic: View + Sized {
    /// A request that reads the state.
    type QueryEvent: View;

    /// What a read returns.
    type QueryOutput: View;

    /// A request that may change the state.
    type UpdateEvent: View;

    /// What a write returns.
    type UpdateOutput: View;

    /// What `event` reads from state `s`.
    spec fn query_spec(s: Self::V, event: <Self::QueryEvent as View>::V) -> <Self::QueryOutput as View>::V;

    /// The state after `event` is applied to `s`, and what the write returns.
    spec fn update_spec(s: Self::V, event: <Self::UpdateEvent as View>::V) -> (
        Self::V,
        <Self::UpdateOutput as View>::V,
    );

    /// The state of a store that holds nothing yet.
    spec fn initial_spec() -> Self::V;

    /// The stored form of a state, or `None` where it cannot be encoded.
    spec fn encode_state_spec(s: Self::V) -> Option<Seq<u8>>;

    /// The state that bytes hold, or `None` where they hold none.
    spec fn decode_state_spec(bytes: Seq<u8>) -> Option<Self::V>;

    /// The stored form of a write message, or `None` where it cannot be
    /// encoded.
    spec fn encode_update_spec(event: <Self::UpdateEvent as View>::V) -> Option<Seq<u8>>;

    /// The write message that bytes hold, or `None` where they hold none.
    spec fn decode_update_spec(bytes: Seq<u8>) -> Option<<Self::UpdateEvent as View>::V>;

    /// Decoding an encoded state gives the state back.
    proof fn lemma_state_round_trip(s: Self::V)
        ensures
            Self::encode_state_spec(s) matches Some(b) ==> Self::decode_state_spec(b) == Some(s),
    ;

    /// Decoding an encoded write message gives the message back.
    proof fn lemma_update_round_trip(event: <Self::UpdateEvent as View>::V)
        ensures
            Self::encode_update_spec(event) matches Some(b) ==> Self::decode_update_spec(b) == Some(
                event,
            ),
    ;

    /// Answers a read request.
    fn run_query(&self, event: Self::QueryEvent) -> (r: Self::QueryOutput)
        ensures
            r@ == Self::query_spec(self@, event@),
    ;

    /// Applies a write request.
    fn run_update(&mut self, event: Self::UpdateEvent) -> (r: Self::UpdateOutput)
        ensures
            (final(self)@, r@) == Self::update_spec(old(self)@, event@),
    ;

    /// The state of a store that holds nothing yet.
    fn initial() -> (r: Self)
        ensures
            r@ == Self::initial_spec(),
    ;

    /// Encodes a state.
    fn encode_state(&self) -> (r: Option<Vec<u8>>)
        ensures
            match r {
                Some(b) => Self::encode_state_spec(self@) == Some(b@),
                None => Self::encode_state_spec(self@) is None,
            },
    ;

    /// Decodes a state.
    fn decode_state(bytes: &[u8]) -> (r: Option<Self>)
        ensures
            match r {
                Some(s) => Self::decode_state_spec(bytes@) == Some(s@),
                None => Self::decode_state_spec(bytes@) is None,
            },
    ;

    /// Encodes a write message.
    fn encode_update(event: &Self::UpdateEvent) -> (r: Option<Vec<u8>>)
        ensures
            match r {
                Some(b) => Self::encode_update_spec(event@) == Some(b@),
                None => Self::encode_update_spec(event@) is None,
            },
    ;

    /// Decodes a write message.
    fn decode_update(bytes: &[u8]) -> (r: Option<Self::UpdateEvent>)
        ensures
            match r {
                Some(e) => Self::decode_update_spec(bytes@) == Some(e@),
                None => Self::decode_update_spec(bytes@) is None,
            },
    ;
}

} // verus!

//! The registry's registration laws, stated over its `Map` view and proved
//! once and for all. The registry serializes registration attempts (each is
//! one critical section), so any set of concurrent attempts is observed as
//! some sequence of `register_result` / `register_state` steps; these laws
//! quantify over every such sequence.

use vstd::prelude::*;

use crate::protocol::{parse_model, CommandModel, ErrorCode, Response};
use crate::registry::{nickname_taken, register_result, register_state, RegistrationError};
use crate::session::{chunk_response, chunk_state};

verus! {

/// The results of a sequence of registration attempts, one per identity in
/// `ids`, all for the nickname `nick`, applied in order starting from
/// registry state `m`.
pub open spec fn attempt_results(m: Map<u64, Seq<u8>>, ids: Seq<u64>, nick: Seq<u8>) -> Seq<
    Result<(), RegistrationError>,
>
    decreases ids.len(),
{
    if ids.len() == 0 {
        Seq::empty()
    } else {
        seq![register_result(m, ids[0], nick)] + attempt_results(
            register_state(m, ids[0], nick),
            ids.subrange(1, ids.len() as int),
            nick,
        )
    }
}

proof fn lemma_attempts_when_taken(m: Map<u64, Seq<u8>>, ids: Seq<u64>, nick: Seq<u8>)
    requires
        nickname_taken(m, nick),
        forall|i: int| 0 <= i < ids.len() ==> !m.dom().contains(ids[i]),
    ensures
        attempt_results(m, ids, nick).len() == ids.len(),
        forall|i: int|
            0 <= i < ids.len() ==> attempt_results(m, ids, nick)[i] == Err::<
                (),
                RegistrationError,
            >(RegistrationError::NicknameTaken),
    decreases ids.len(),
{
    if ids.len() > 0 {
        assert(register_result(m, ids[0], nick) == Err::<(), RegistrationError>(
            RegistrationError::NicknameTaken,
        ));
        assert(register_state(m, ids[0], nick) == m);
        let rest = ids.subrange(1, ids.len() as int);
        assert(forall|i: int|
            0 <= i < rest.len() ==> rest[i] == ids[i + 1] && !m.dom().contains(rest[i]));
        lemma_attempts_when_taken(m, rest, nick);
        assert(forall|i: int|
            1 <= i < ids.len() ==> attempt_results(m, ids, nick)[i] == attempt_results(
                m,
                rest,
                nick,
            )[i - 1]);
    }
}

/// Uniqueness law: however many registration attempts race for one nickname,
/// at most one succeeds and every other attempt is rejected with the
/// nickname-taken error. Stated for any sequence of attempts from distinct,
/// as-yet-unregistered identities: if the nickname was free, exactly the
/// first attempt succeeds and the rest fail with `NicknameTaken`; if it was
/// already held, every attempt fails with `NicknameTaken`.
pub proof fn lemma_registration_uniqueness(m: Map<u64, Seq<u8>>, ids: Seq<u64>, nick: Seq<u8>)
    requires
        forall|i: int| 0 <= i < ids.len() ==> !m.dom().contains(ids[i]),
        forall|i: int, j: int| 0 <= i < j < ids.len() ==> ids[i] != ids[j],
    ensures
        attempt_results(m, ids, nick).len() == ids.len(),
        !nickname_taken(m, nick) && ids.len() > 0 ==> attempt_results(m, ids, nick)[0] == Ok::<
            (),
            RegistrationError,
        >(()),
        !nickname_taken(m, nick) ==> forall|i: int|
            1 <= i < ids.len() ==> attempt_results(m, ids, nick)[i] == Err::<
                (),
                RegistrationError,
            >(RegistrationError::NicknameTaken),
        nickname_taken(m, nick) ==> forall|i: int|
            0 <= i < ids.len() ==> attempt_results(m, ids, nick)[i] == Err::<
                (),
                RegistrationError,
            >(RegistrationError::NicknameTaken),
{
    if nickname_taken(m, nick) {
        lemma_attempts_when_taken(m, ids, nick);
    } else if ids.len() > 0 {
        assert(register_result(m, ids[0], nick) == Ok::<(), RegistrationError>(()));
        let m1 = register_state(m, ids[0], nick);
        assert(m1 == m.insert(ids[0], nick));
        assert(m1.dom().contains(ids[0]) && m1[ids[0]] == nick);
        assert(nickname_taken(m1, nick));
        let rest = ids.subrange(1, ids.len() as int);
        assert(forall|i: int|
            0 <= i < rest.len() ==> rest[i] == ids[i + 1] && !m1.dom().contains(rest[i]));
        lemma_attempts_when_taken(m1, rest, nick);
        assert(forall|i: int|
            1 <= i < ids.len() ==> attempt_results(m, ids, nick)[i] == attempt_results(
                m1,
                rest,
                nick,
            )[i - 1]);
    }
}

/// Single-registration law: once a connection's registration has succeeded,
/// any further attempt from the same identity — whatever nickname it asks
/// for — is rejected with the already-registered error, and the registry,
/// in particular the original nickname, is unchanged.
pub proof fn lemma_single_registration(
    m: Map<u64, Seq<u8>>,
    identity: u64,
    nick1: Seq<u8>,
    nick2: Seq<u8>,
)
    requires
        register_result(m, identity, nick1) is Ok,
    ensures
        register_result(register_state(m, identity, nick1), identity, nick2) == Err::<
            (),
            RegistrationError,
        >(RegistrationError::AlreadyRegistered),
        register_state(register_state(m, identity, nick1), identity, nick2) == register_state(
            m,
            identity,
            nick1,
        ),
        register_state(m, identity, nick1)[identity] == nick1,
{
}

/// The uniqueness law at the dispatcher's level: once one chunk's `REG` for a
/// nickname was accepted, a later chunk asking to register the same nickname
/// from any other, as-yet-unregistered connection is answered `TKN`, and the
/// registry does not change.
pub proof fn lemma_chunk_nickname_uniqueness(
    m: Map<u64, Seq<u8>>,
    id1: u64,
    chunk1: Seq<u8>,
    id2: u64,
    chunk2: Seq<u8>,
)
    requires
        parse_model(chunk1) is Reg,
        parse_model(chunk2) == parse_model(chunk1),
        chunk_response(m, id1, chunk1) == Response::Accepted,
        id2 != id1,
        !m.dom().contains(id2),
    ensures
        ({
            let m1 = chunk_state(m, id1, chunk1);
            chunk_response(m1, id2, chunk2) == Response::Rejected(ErrorCode::Tkn)
                && chunk_state(m1, id2, chunk2) == m1
        }),
{
    let nick = parse_model(chunk1)->Reg_0;
    let m1 = chunk_state(m, id1, chunk1);
    assert(m1 == m.insert(id1, nick));
    assert(m1.dom().contains(id1) && m1[id1] == nick);
    assert(nickname_taken(m1, nick));
}

/// The single-registration law at the dispatcher's level: after a chunk's
/// `REG` was accepted, any further `REG` chunk from the same connection —
/// whatever nickname it asks for — is answered `ALR_REG`, and the registry,
/// in particular the registered nickname, is unchanged.
pub proof fn lemma_chunk_single_registration(
    m: Map<u64, Seq<u8>>,
    identity: u64,
    chunk1: Seq<u8>,
    chunk2: Seq<u8>,
)
    requires
        parse_model(chunk1) is Reg,
        parse_model(chunk2) is Reg,
        chunk_response(m, identity, chunk1) == Response::Accepted,
    ensures
        ({
            let m1 = chunk_state(m, identity, chunk1);
            chunk_response(m1, identity, chunk2) == Response::Rejected(ErrorCode::AlrReg)
                && chunk_state(m1, identity, chunk2) == m1
                && m1[identity] == parse_model(chunk1)->Reg_0
        }),
{
}

} // verus!

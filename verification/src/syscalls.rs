use vstd::prelude::*;
use crate::abi::{AbiStackValue, AbiItem, HostCallbackResult, abi_model_seq, lemma_abi_model_seq_push};
use crate::interop::{RUNTIME_PLATFORM,RUNTIME_GET_TRIGGER,RUNTIME_GET_NETWORK,RUNTIME_GET_ADDRESS_VERSION,RUNTIME_GAS_LEFT,RUNTIME_GET_TIME,RUNTIME_GET_SCRIPT_CONTAINER,RUNTIME_GET_EXECUTING_SCRIPT_HASH,RUNTIME_GET_CALLING_SCRIPT_HASH,RUNTIME_GET_ENTRY_SCRIPT_HASH,RUNTIME_GET_INVOCATION_COUNTER,RUNTIME_GET_RANDOM,RUNTIME_CURRENT_SIGNERS,RUNTIME_GET_NOTIFICATIONS,RUNTIME_CHECK_WITNESS,RUNTIME_BURN_GAS,RUNTIME_NOTIFY,RUNTIME_LOG,RUNTIME_LOAD_SCRIPT,STORAGE_GET_CONTEXT,STORAGE_GET_READ_ONLY_CONTEXT,STORAGE_AS_READ_ONLY,STORAGE_GET,STORAGE_PUT,STORAGE_DELETE,STORAGE_FIND,STORAGE_LOCAL_GET,STORAGE_LOCAL_PUT,STORAGE_LOCAL_DELETE,STORAGE_LOCAL_FIND,CONTRACT_CALL,CONTRACT_CREATE,CONTRACT_UPDATE,CONTRACT_GET_CALL_FLAGS,CONTRACT_CREATE_STANDARD_ACCOUNT,CONTRACT_CREATE_MULTISIG_ACCOUNT,CONTRACT_NATIVE_ON_PERSIST,CONTRACT_NATIVE_POST_PERSIST,CRYPTO_CHECK_SIG,CRYPTO_CHECK_MULTISIG,ITERATOR_NEXT,ITERATOR_VALUE};
use crate::pricing::RuntimeContext;
use crate::text::{text, push_hex8, hex8};

verus! {

/// The services answered with `Null`.
pub open spec fn answers_null(api: u32) -> bool {
    api == RUNTIME_GET_SCRIPT_CONTAINER || api == RUNTIME_CURRENT_SIGNERS || api == RUNTIME_LOAD_SCRIPT
        || api == STORAGE_GET || api == STORAGE_FIND || api == STORAGE_LOCAL_GET || api == STORAGE_LOCAL_FIND
        || api == CONTRACT_CALL || api == CONTRACT_CREATE || api == ITERATOR_VALUE
}

/// The services answered with a script hash of twenty zero bytes.
pub open spec fn answers_zero_hash(api: u32) -> bool {
    api == RUNTIME_GET_EXECUTING_SCRIPT_HASH || api == RUNTIME_GET_CALLING_SCRIPT_HASH
        || api == RUNTIME_GET_ENTRY_SCRIPT_HASH || api == CONTRACT_CREATE_STANDARD_ACCOUNT
        || api == CONTRACT_CREATE_MULTISIG_ACCOUNT
}

/// The services answered with the integer 1 (invocation counter, storage context handles).
pub open spec fn answers_one(api: u32) -> bool {
    api == RUNTIME_GET_INVOCATION_COUNTER || api == STORAGE_GET_CONTEXT || api == STORAGE_GET_READ_ONLY_CONTEXT
        || api == STORAGE_AS_READ_ONLY
}

/// The services answered with `true`.
pub open spec fn answers_true(api: u32) -> bool {
    api == RUNTIME_CHECK_WITNESS || api == CRYPTO_CHECK_SIG || api == CRYPTO_CHECK_MULTISIG
}

/// The services that leave nothing on the stack.
pub open spec fn answers_nothing(api: u32) -> bool {
    api == RUNTIME_BURN_GAS || api == RUNTIME_NOTIFY || api == RUNTIME_LOG || api == STORAGE_PUT
        || api == STORAGE_DELETE || api == STORAGE_LOCAL_PUT || api == STORAGE_LOCAL_DELETE
        || api == CONTRACT_UPDATE || api == CONTRACT_NATIVE_ON_PERSIST || api == CONTRACT_NATIVE_POST_PERSIST
}

/// What the built-in syscall handler answers for `api` in `context`: the items it leaves on
/// the stack, or the words of its error.
pub open spec fn builtin_reply(api: u32, context: RuntimeContext) -> Result<Seq<AbiItem>, Seq<char>> {
    if api == RUNTIME_PLATFORM {
        Ok(seq![AbiItem::ByteString(seq![0x4eu8, 0x45u8, 0x4fu8])])
    } else if api == RUNTIME_GET_TRIGGER {
        Ok(seq![AbiItem::Integer(context.trigger as i64)])
    } else if api == RUNTIME_GET_NETWORK {
        Ok(seq![AbiItem::Integer(context.network as i64)])
    } else if api == RUNTIME_GET_ADDRESS_VERSION {
        Ok(seq![AbiItem::Integer(context.address_version as i64)])
    } else if api == RUNTIME_GAS_LEFT {
        Ok(seq![AbiItem::Integer(context.gas_left)])
    } else if api == RUNTIME_GET_TIME {
        match context.timestamp {
            Some(t) => Ok(seq![AbiItem::Integer(t as i64)]),
            None => Err("GetTime requires a persisting block timestamp"@),
        }
    } else if answers_null(api) {
        Ok(seq![AbiItem::Null])
    } else if answers_zero_hash(api) {
        Ok(seq![AbiItem::ByteString(Seq::new(20, |i: int| 0u8))])
    } else if answers_one(api) {
        Ok(seq![AbiItem::Integer(1)])
    } else if api == RUNTIME_GET_RANDOM {
        Ok(seq![AbiItem::Integer(42)])
    } else if api == RUNTIME_GET_NOTIFICATIONS {
        Ok(seq![AbiItem::Array(Seq::empty())])
    } else if answers_true(api) {
        Ok(seq![AbiItem::Boolean(true)])
    } else if answers_nothing(api) {
        Ok(Seq::empty())
    } else if api == CONTRACT_GET_CALL_FLAGS {
        Ok(seq![AbiItem::Integer(0x0f)])
    } else if api == ITERATOR_NEXT {
        Ok(seq![AbiItem::Boolean(false)])
    } else {
        Err("unsupported syscall 0x"@ + hex8(api))
    }
}

/// The context getters answer the context's own fields, one integer each: GetTrigger the
/// trigger, GetNetwork the network, GetAddressVersion the address version, GasLeft the gas
/// left, and GetTime the block timestamp when there is one.
pub proof fn law_context_getters_answer_their_field(c: RuntimeContext)
    ensures
        builtin_reply(RUNTIME_GET_TRIGGER, c) == Ok::<Seq<AbiItem>, Seq<char>>(seq![AbiItem::Integer(c.trigger as i64)]),
        builtin_reply(RUNTIME_GET_NETWORK, c) == Ok::<Seq<AbiItem>, Seq<char>>(seq![AbiItem::Integer(c.network as i64)]),
        builtin_reply(RUNTIME_GET_ADDRESS_VERSION, c)
            == Ok::<Seq<AbiItem>, Seq<char>>(seq![AbiItem::Integer(c.address_version as i64)]),
        builtin_reply(RUNTIME_GAS_LEFT, c) == Ok::<Seq<AbiItem>, Seq<char>>(seq![AbiItem::Integer(c.gas_left)]),
        c.timestamp matches Some(t) ==> builtin_reply(RUNTIME_GET_TIME, c)
            == Ok::<Seq<AbiItem>, Seq<char>>(seq![AbiItem::Integer(t as i64)]),
{
}

/// Each getter reads only its own field, and every other service answers the same in every
/// context: for contexts `a` and `b`, the answers to `api` agree whenever the field that
/// `api` reads agrees.
pub proof fn law_answers_depend_only_on_the_field_read(api: u32, a: RuntimeContext, b: RuntimeContext)
    ensures
        api == RUNTIME_GET_TRIGGER && a.trigger == b.trigger ==> builtin_reply(api, a) == builtin_reply(api, b),
        api == RUNTIME_GET_NETWORK && a.network == b.network ==> builtin_reply(api, a) == builtin_reply(api, b),
        api == RUNTIME_GET_ADDRESS_VERSION && a.address_version == b.address_version
            ==> builtin_reply(api, a) == builtin_reply(api, b),
        api == RUNTIME_GAS_LEFT && a.gas_left == b.gas_left ==> builtin_reply(api, a) == builtin_reply(api, b),
        api == RUNTIME_GET_TIME && a.timestamp == b.timestamp ==> builtin_reply(api, a) == builtin_reply(api, b),
        api != RUNTIME_GET_TRIGGER && api != RUNTIME_GET_NETWORK && api != RUNTIME_GET_ADDRESS_VERSION
            && api != RUNTIME_GAS_LEFT && api != RUNTIME_GET_TIME ==> builtin_reply(api, a) == builtin_reply(api, b),
{
}

fn single(item: AbiStackValue) -> (r: HostCallbackResult)
    ensures
        abi_model_seq(r.stack@) == seq![item.model()],
{
    let ghost m = item.model();
    let mut stack: Vec<AbiStackValue> = Vec::new();
    stack.push(item);
    proof {
        lemma_abi_model_seq_push(Seq::empty(), stack@[0]);
        assert(stack@ =~= Seq::<AbiStackValue>::empty().push(stack@[0]));
        assert(abi_model_seq(Seq::<AbiStackValue>::empty()) =~= Seq::<AbiItem>::empty());
        assert(seq![m] =~= Seq::<AbiItem>::empty().push(m));
    }
    HostCallbackResult { stack }
}

fn zero_hash() -> (r: Vec<u8>)
    ensures
        r@ == Seq::new(20, |i: int| 0u8),
{
    let r = vec![0u8; 20];
    assert(r@ =~= Seq::new(20, |i: int| 0u8));
    r
}

/// The words of the refusal when the built-in table is switched off.
pub open spec fn builtin_disabled_text() -> Seq<char> {
    "builtin host callback is disabled in release builds"@
}

/// Answers a syscall from the built-in table used when no host is attached: fixed
/// platform facts, the context's own fields, and neutral answers for services that need a
/// host. The stack handed in is not read. The table only serves development and tests:
/// when `enabled` is false (release builds) every call is refused, since the real host
/// must make the witness and signature checks.
pub fn builtin_host_callback(enabled: bool, api: u32, context: RuntimeContext, stack: &[AbiStackValue]) -> (r: Result<HostCallbackResult, String>)
    ensures
        !enabled ==> (r matches Err(msg) && msg@ == builtin_disabled_text()),
        enabled ==> match r {
            Ok(res) => builtin_reply(api, context) == Ok::<Seq<AbiItem>, Seq<char>>(abi_model_seq(res.stack@)),
            Err(msg) => builtin_reply(api, context) == Err::<Seq<AbiItem>, Seq<char>>(msg@),
        },
{
    if !enabled {
        return Err(text("builtin host callback is disabled in release builds"));
    }
    if api == RUNTIME_PLATFORM {
        Ok(single(AbiStackValue::ByteString(vec![0x4eu8, 0x45u8, 0x4fu8])))
    } else if api == RUNTIME_GET_TRIGGER {
        Ok(single(AbiStackValue::Integer(context.trigger as i64)))
    } else if api == RUNTIME_GET_NETWORK {
        Ok(single(AbiStackValue::Integer(context.network as i64)))
    } else if api == RUNTIME_GET_ADDRESS_VERSION {
        Ok(single(AbiStackValue::Integer(context.address_version as i64)))
    } else if api == RUNTIME_GAS_LEFT {
        Ok(single(AbiStackValue::Integer(context.gas_left)))
    } else if api == RUNTIME_GET_TIME {
        match context.timestamp {
            Some(t) => Ok(single(AbiStackValue::Integer(t as i64))),
            None => Err(text("GetTime requires a persisting block timestamp")),
        }
    } else if api == RUNTIME_GET_SCRIPT_CONTAINER || api == RUNTIME_CURRENT_SIGNERS || api == RUNTIME_LOAD_SCRIPT
        || api == STORAGE_GET || api == STORAGE_FIND || api == STORAGE_LOCAL_GET || api == STORAGE_LOCAL_FIND
        || api == CONTRACT_CALL || api == CONTRACT_CREATE || api == ITERATOR_VALUE {
        Ok(single(AbiStackValue::Null))
    } else if api == RUNTIME_GET_EXECUTING_SCRIPT_HASH || api == RUNTIME_GET_CALLING_SCRIPT_HASH
        || api == RUNTIME_GET_ENTRY_SCRIPT_HASH || api == CONTRACT_CREATE_STANDARD_ACCOUNT
        || api == CONTRACT_CREATE_MULTISIG_ACCOUNT {
        Ok(single(AbiStackValue::ByteString(zero_hash())))
    } else if api == RUNTIME_GET_INVOCATION_COUNTER || api == STORAGE_GET_CONTEXT
        || api == STORAGE_GET_READ_ONLY_CONTEXT || api == STORAGE_AS_READ_ONLY {
        Ok(single(AbiStackValue::Integer(1)))
    } else if api == RUNTIME_GET_RANDOM {
        Ok(single(AbiStackValue::Integer(42)))
    } else if api == RUNTIME_GET_NOTIFICATIONS {
        let r = single(AbiStackValue::Array(Vec::new()));
        proof {
            assert(abi_model_seq(Seq::<AbiStackValue>::empty()) =~= Seq::<AbiItem>::empty());
        }
        Ok(r)
    } else if api == RUNTIME_CHECK_WITNESS || api == CRYPTO_CHECK_SIG || api == CRYPTO_CHECK_MULTISIG {
        Ok(single(AbiStackValue::Boolean(true)))
    } else if api == RUNTIME_BURN_GAS || api == RUNTIME_NOTIFY || api == RUNTIME_LOG || api == STORAGE_PUT
        || api == STORAGE_DELETE || api == STORAGE_LOCAL_PUT || api == STORAGE_LOCAL_DELETE
        || api == CONTRACT_UPDATE || api == CONTRACT_NATIVE_ON_PERSIST || api == CONTRACT_NATIVE_POST_PERSIST {
        let stack: Vec<AbiStackValue> = Vec::new();
        assert(abi_model_seq(stack@) =~= Seq::<AbiItem>::empty());
        Ok(HostCallbackResult { stack })
    } else if api == CONTRACT_GET_CALL_FLAGS {
        Ok(single(AbiStackValue::Integer(0x0f)))
    } else if api == ITERATOR_NEXT {
        Ok(single(AbiStackValue::Boolean(false)))
    } else {
        let mut msg = text("unsupported syscall 0x");
        push_hex8(&mut msg, api);
        Err(msg)
    }
}

} // verus!

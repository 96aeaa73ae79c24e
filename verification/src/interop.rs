use vstd::prelude::*;

verus! {

// The identifiers of the interop services: each is the first four bytes of the SHA-256
// digest of the service name, read as a little-endian `u32`.

/// `System.Runtime.Platform`.
pub const RUNTIME_PLATFORM: u32 = 0xf6fc79b2;
/// `System.Runtime.GetTrigger`.
pub const RUNTIME_GET_TRIGGER: u32 = 0xa0387de9;
/// `System.Runtime.GetNetwork`.
pub const RUNTIME_GET_NETWORK: u32 = 0xe0a0fbc5;
/// `System.Runtime.GetAddressVersion`.
pub const RUNTIME_GET_ADDRESS_VERSION: u32 = 0xdc92494c;
/// `System.Runtime.GasLeft`.
pub const RUNTIME_GAS_LEFT: u32 = 0xced88814;
/// `System.Runtime.GetTime`.
pub const RUNTIME_GET_TIME: u32 = 0x0388c3b7;
/// `System.Runtime.GetScriptContainer`.
pub const RUNTIME_GET_SCRIPT_CONTAINER: u32 = 0x3008512d;
/// `System.Runtime.GetExecutingScriptHash`.
pub const RUNTIME_GET_EXECUTING_SCRIPT_HASH: u32 = 0x74a8fedb;
/// `System.Runtime.GetCallingScriptHash`.
pub const RUNTIME_GET_CALLING_SCRIPT_HASH: u32 = 0x3c6e5339;
/// `System.Runtime.GetEntryScriptHash`.
pub const RUNTIME_GET_ENTRY_SCRIPT_HASH: u32 = 0x38e2b4f9;
/// `System.Runtime.GetInvocationCounter`.
pub const RUNTIME_GET_INVOCATION_COUNTER: u32 = 0x43112784;
/// `System.Runtime.GetRandom`.
pub const RUNTIME_GET_RANDOM: u32 = 0x28a9de6b;
/// `System.Runtime.CurrentSigners`.
pub const RUNTIME_CURRENT_SIGNERS: u32 = 0x8b18f1ac;
/// `System.Runtime.GetNotifications`.
pub const RUNTIME_GET_NOTIFICATIONS: u32 = 0xf1354327;
/// `System.Runtime.CheckWitness`.
pub const RUNTIME_CHECK_WITNESS: u32 = 0x8cec27f8;
/// `System.Runtime.BurnGas`.
pub const RUNTIME_BURN_GAS: u32 = 0xbc8c5ac3;
/// `System.Runtime.Notify`.
pub const RUNTIME_NOTIFY: u32 = 0x616f0195;
/// `System.Runtime.Log`.
pub const RUNTIME_LOG: u32 = 0x9647e7cf;
/// `System.Runtime.LoadScript`.
pub const RUNTIME_LOAD_SCRIPT: u32 = 0x8f800cb3;
/// `System.Storage.GetContext`.
pub const STORAGE_GET_CONTEXT: u32 = 0xce67f69b;
/// `System.Storage.GetReadOnlyContext`.
pub const STORAGE_GET_READ_ONLY_CONTEXT: u32 = 0xe26bb4f6;
/// `System.Storage.AsReadOnly`.
pub const STORAGE_AS_READ_ONLY: u32 = 0xe9bf4c76;
/// `System.Storage.Get`.
pub const STORAGE_GET: u32 = 0x31e85d92;
/// `System.Storage.Put`.
pub const STORAGE_PUT: u32 = 0x84183fe6;
/// `System.Storage.Delete`.
pub const STORAGE_DELETE: u32 = 0xedc5582f;
/// `System.Storage.Find`.
pub const STORAGE_FIND: u32 = 0x9ab830df;
/// `System.Storage.Local.Get`.
pub const STORAGE_LOCAL_GET: u32 = 0xe85e8dd5;
/// `System.Storage.Local.Put`.
pub const STORAGE_LOCAL_PUT: u32 = 0x0ae30c39;
/// `System.Storage.Local.Delete`.
pub const STORAGE_LOCAL_DELETE: u32 = 0x94f55475;
/// `System.Storage.Local.Find`.
pub const STORAGE_LOCAL_FIND: u32 = 0xf3527607;
/// `System.Contract.Call`.
pub const CONTRACT_CALL: u32 = 0x525b7d62;
/// `System.Contract.Create`.
pub const CONTRACT_CREATE: u32 = 0x852c35ce;
/// `System.Contract.Update`.
pub const CONTRACT_UPDATE: u32 = 0x1d33c631;
/// `System.Contract.GetCallFlags`.
pub const CONTRACT_GET_CALL_FLAGS: u32 = 0x813ada95;
/// `System.Contract.CreateStandardAccount`.
pub const CONTRACT_CREATE_STANDARD_ACCOUNT: u32 = 0x028799cf;
/// `System.Contract.CreateMultisigAccount`.
pub const CONTRACT_CREATE_MULTISIG_ACCOUNT: u32 = 0x09e9336a;
/// `System.Contract.NativeOnPersist`.
pub const CONTRACT_NATIVE_ON_PERSIST: u32 = 0x93bcdb2e;
/// `System.Contract.NativePostPersist`.
pub const CONTRACT_NATIVE_POST_PERSIST: u32 = 0x165da144;
/// `System.Crypto.CheckSig`.
pub const CRYPTO_CHECK_SIG: u32 = 0x27b3e756;
/// `System.Crypto.CheckMultisig`.
pub const CRYPTO_CHECK_MULTISIG: u32 = 0x3adcd09e;
/// `System.Iterator.Next`.
pub const ITERATOR_NEXT: u32 = 0x9ced089c;
/// `System.Iterator.Value`.
pub const ITERATOR_VALUE: u32 = 0x1dbf54f3;

} // verus!

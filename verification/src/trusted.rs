//! The boundary to code that is not verified here: each item states what is
//! believed of a function or type of another crate.

use crate::decimal::parse_decimal;
use bytes::{Buf, Bytes, BytesMut};
use tokio::sync::broadcast::error::SendError;
use tokio::sync::broadcast::{Receiver, Sender};
use vstd::prelude::*;
use vstd::utf8::{encode_utf8, valid_utf8};

verus! {

/// The `bytes::Bytes` buffer: an immutable, cheaply cloneable run of bytes.
#[verifier::external_type_specification]
#[verifier::external_body]
pub struct ExBytes(bytes::Bytes);

/// The bytes that a `Bytes` value holds, in order.
pub uninterp spec fn bytes_view(b: Bytes) -> Seq<u8>;

/// `Bytes::copy_from_slice`: a new buffer holding a copy of `data`.
#[verifier::external_body]
pub(crate) fn bytes_from_slice(data: &[u8]) -> (b: Bytes)
    ensures
        bytes_view(b) == data@,
{
    Bytes::copy_from_slice(data)
}

/// `AsRef<[u8]>` of `Bytes`: the bytes of the buffer as a slice.
#[verifier::external_body]
pub(crate) fn bytes_as_slice(b: &Bytes) -> (data: &[u8])
    ensures
        data@ == bytes_view(*b),
{
    b.as_ref()
}

/// `Clone` of `Bytes`: another handle on the same bytes.
#[verifier::external_body]
pub(crate) fn bytes_clone(b: &Bytes) -> (copy: Bytes)
    ensures
        bytes_view(copy) == bytes_view(*b),
{
    b.clone()
}

/// The `bytes::BytesMut` buffer: a growable run of bytes that can give up
/// its front.
#[verifier::external_type_specification]
#[verifier::external_body]
pub struct ExBytesMut(bytes::BytesMut);

/// The bytes that a `BytesMut` value holds, in order.
pub uninterp spec fn bytes_mut_view(b: BytesMut) -> Seq<u8>;

/// `BytesMut::with_capacity`: an empty buffer with room for `capacity`
/// bytes.
#[verifier::external_body]
pub(crate) fn bytes_mut_with_capacity(capacity: usize) -> (b: BytesMut)
    ensures
        bytes_mut_view(b) == Seq::<u8>::empty(),
{
    BytesMut::with_capacity(capacity)
}

/// `AsRef<[u8]>` of `BytesMut`: the bytes of the buffer as a slice.
#[verifier::external_body]
pub(crate) fn bytes_mut_as_slice(b: &BytesMut) -> (data: &[u8])
    ensures
        data@ == bytes_mut_view(*b),
{
    b.as_ref()
}

/// `BytesMut::extend_from_slice`: appends a copy of `data` to the buffer.
#[verifier::external_body]
pub(crate) fn bytes_mut_extend(b: &mut BytesMut, data: &[u8])
    ensures
        bytes_mut_view(*final(b)) == bytes_mut_view(*old(b)) + data@,
{
    b.extend_from_slice(data)
}

/// `Buf::advance` of `BytesMut`: drops the first `count` bytes of the
/// buffer. It panics where the buffer holds fewer.
#[verifier::external_body]
pub(crate) fn bytes_mut_advance(b: &mut BytesMut, count: usize)
    requires
        count <= bytes_mut_view(*old(b)).len(),
    ensures
        bytes_mut_view(*final(b)) == bytes_mut_view(*old(b)).skip(count as int),
{
    b.advance(count)
}

/// `String::from_utf8`: a string made of `bytes` as they are, where they
/// are valid UTF-8, and nothing where they are not.
#[verifier::external_body]
pub(crate) fn string_from_utf8(bytes: Vec<u8>) -> (text: Option<String>)
    ensures
        text is Some <==> valid_utf8(bytes@),
        text matches Some(s) ==> encode_utf8(s@) == bytes@,
{
    String::from_utf8(bytes).ok()
}

/// `atoi::atoi::<i64>`: reads a signed decimal number from the start of
/// `text`. It takes an optional sign and then every digit that follows, and
/// ignores what comes after. A sign without a digit behind it counts as
/// zero. It gives no number where `text` starts with neither a sign nor a
/// digit, or where the number does not fit `i64`.
#[verifier::external_body]
pub(crate) fn atoi_i64(text: &[u8]) -> (number: Option<i64>)
    ensures
        number == parse_decimal(text@),
{
    atoi::atoi::<i64>(text)
}

/// The sending half of a `tokio::sync::broadcast` channel.
#[verifier::external_type_specification]
#[verifier::external_body]
#[verifier::reject_recursive_types(T)]
pub struct ExSender<T>(tokio::sync::broadcast::Sender<T>);

/// A receiving half of a `tokio::sync::broadcast` channel.
#[verifier::external_type_specification]
#[verifier::external_body]
#[verifier::reject_recursive_types(T)]
pub struct ExReceiver<T>(tokio::sync::broadcast::Receiver<T>);

/// The error of `tokio::sync::broadcast::Sender::send`, which hands the
/// message back.
#[verifier::external_type_specification]
#[verifier::external_body]
#[verifier::reject_recursive_types(T)]
pub struct ExSendError<T>(tokio::sync::broadcast::error::SendError<T>);

/// The number of messages that the channel of a sender was asked to keep
/// for receivers that lag, when it was made. It is fixed for the life of the
/// channel. (The channel may keep more: it rounds up to a power of two.)
pub uninterp spec fn broadcast_capacity(sender: Sender<Bytes>) -> usize;

/// `tokio::sync::broadcast::channel`: a new channel that keeps up to
/// `capacity` messages for receivers that lag, with its first receiver. It
/// panics where `capacity` is zero or above half of `usize::MAX`.
#[verifier::external_body]
pub(crate) fn broadcast_channel(capacity: usize) -> (ends: (Sender<Bytes>, Receiver<Bytes>))
    requires
        0 < capacity <= usize::MAX / 2,
    ensures
        broadcast_capacity(ends.0) == capacity,
{
    tokio::sync::broadcast::channel(capacity)
}

/// `tokio::sync::broadcast::Sender::subscribe`: one more receiver, which
/// gets what is sent from now on. It panics where the channel has a quarter
/// of `usize::MAX` receivers already, more than a machine can hold.
#[verifier::external_body]
pub(crate) fn broadcast_subscribe(sender: &Sender<Bytes>) -> (receiver: Receiver<Bytes>) {
    sender.subscribe()
}

/// `tokio::sync::broadcast::Sender::send`: queues `message` for every
/// receiver and tells how many receivers there are, at least one and at most
/// a quarter of `usize::MAX`; fails where there is none.
#[verifier::external_body]
pub(crate) fn broadcast_send(sender: &Sender<Bytes>, message: Bytes) -> (sent: Result<
    usize,
    SendError<Bytes>,
>)
    ensures
        sent matches Ok(receivers) ==> 0 < receivers <= usize::MAX / 4,
{
    sender.send(message)
}

} // verus!

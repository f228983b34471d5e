//! The synchronization protocol: the message vocabulary between server and
//! client, and the client-side dispatch that keeps a client's resident
//! terrain consistent with its own pulls and with server-pushed edits.

use vstd::prelude::*;
use crate::region::Region;
use crate::material::Material;
use crate::field::Brush;

verus! {

/// Why the server is pushing region data to a client: an edit broadcast
/// carries no correlation data, a reply to an explicit pull carries the
/// pull's send time so the client can measure round-trip latency.
#[derive(Clone, Copy, PartialEq, Eq, Structural, Debug)]
pub enum VoxelReason {
    Updated,
    Requested { at: u64 },
}

/// Server-to-client messages.
#[derive(Clone, Debug)]
pub enum ServerToClient {
    /// Region data, pushed as a broadcast or as a reply to a pull.
    Voxels { voxels: Vec<(Region, Material)>, reason: VoxelReason },
    /// Liveness probe; the client answers with its own ping.
    Ping,
}

/// Client-to-server messages.
#[derive(Clone, Debug)]
pub enum ClientToServer {
    /// Handshake: the client announces itself so the server knows where to
    /// push broadcasts and replies.
    Init { client: u64 },
    /// Liveness reply.
    Ping { client: u64 },
    /// Explicit pull: load these regions and reply to the sender, tagged
    /// with the pull's send time.
    LoadVoxels { client: u64, at: u64, regions: Vec<Region> },
    /// An edit submission.
    Brush { brush: Brush },
}

/// What a client does with one inbound server message.
#[derive(Clone, Debug)]
pub enum ClientAction {
    /// Hand the received region data to the terrain loader, with the pull's
    /// send time when the data answers an explicit pull.
    LoadTerrain { voxels: Vec<(Region, Material)>, time_requested: Option<u64> },
    /// Answer a liveness probe.
    ReplyPing { client: u64 },
}

/// Dispatches one server message on the client: region data goes to the
/// terrain loader, tagged with the request time exactly when the reason was
/// an explicit pull; a ping is answered with the client's identity.
pub fn apply_server_update(client: u64, msg: ServerToClient) -> (action: ClientAction)
    ensures
        match msg {
            ServerToClient::Voxels { voxels, reason } => action matches ClientAction::LoadTerrain {
                voxels: v,
                time_requested: t,
            } && v@ == voxels@ && t == (match reason {
                VoxelReason::Updated => None::<u64>,
                VoxelReason::Requested { at } => Some(at),
            }),
            ServerToClient::Ping => action matches ClientAction::ReplyPing { client: c } && c
                == client,
        },
{
    match msg {
        ServerToClient::Voxels { voxels, reason } => {
            let time_requested = match reason {
                VoxelReason::Updated => None,
                VoxelReason::Requested { at } => Some(at),
            };
            ClientAction::LoadTerrain { voxels, time_requested }
        },
        ServerToClient::Ping => ClientAction::ReplyPing { client },
    }
}

/// Round-trip latency of a pull answered with reason `Requested { at }`,
/// measured when the reply arrives at `receive_time`: defined (and then
/// non-negative by construction) exactly when the clock did not step
/// backwards across the round trip.
pub fn round_trip_latency(receive_time: u64, sent_at: u64) -> (latency: Option<u64>)
    ensures
        receive_time >= sent_at <==> latency == Some((receive_time - sent_at) as u64),
        receive_time < sent_at <==> latency == None::<u64>,
{
    if receive_time >= sent_at {
        Some(receive_time - sent_at)
    } else {
        None
    }
}

} // verus!

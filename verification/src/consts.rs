use vstd::prelude::*;

verus! {

pub const PING: u8 = 0xF0;

pub const PONG: u8 = 0xF1;

pub const PAYLOAD: u8 = 0xF2;

pub const RECEIVED: u8 = 0xF3;

pub const REQUEST_FILE: u8 = 0xF4;

pub const ARTISTS_REQUEST: u8 = 0xF5;

pub const ALBUM_REQUEST: u8 = 0xF6;

pub const ALBUM_RESPONSE: u8 = 0xF7;

pub const ARTISTS_RESPONSE: u8 = 0xF8;

pub const PEERS_REQUEST: u8 = 0xF9;

pub const PEERS_RESPONSE: u8 = 0xFA;

pub const OK: u8 = 0xFB;

pub const DOWNLOAD_REQUEST: u8 = 0xFC;

} // verus!

# corplink_tunnel

A WireGuard-over-TCP tunnel in userspace: no TUN device, no root. Applications open TCP
connections through it, directly or by way of a local SOCKS5 proxy.

```
application / SOCKS5  -->  smoltcp     TCP/IP, holds the tunnel address
                             |  IP packets
                           boringtun   encrypts and decrypts
                             |  messages
                           transport   u32-LE length-prefixed frames
                             |
                           TCP  -->  WireGuard endpoint
```

## Layout

- `src/` is the library. Every item is verified with Verus; it does no I/O.
  - `tunnel` holds the datapath together; `conn`, `resolver`, `device`, `noise` and `frame`
    are its parts.
  - `conf`, `ipv4`, `dns`, `text` read and write what travels or is configured.
  - `socks5`, `stream`, `client`, `http` are the dialogues around the tunnel.
  - `stack` and the first part of `noise` state what smoltcp and boringtun do. These
    statements, the one on base64 in `conf` and the one on UTF-8 in `text` are believed, not
    proved.
- `tests/` runs the library against real smoltcp hosts and a real WireGuard peer.
- `app/` is the program around the library: sockets, channels, timers, files.

## What is proved

Among other things: a reader of the transport gives back exactly the messages that were
framed; a DNS reply answers the request that it belongs to and no other; no byte that an
application hands to a connection is lost or reordered, and the connection is closed only
behind the last of them; received bytes that an application has no room for stay in the
socket; packets that are sent before the handshake is through are sent in order once it is,
each sealed in a data message of the new session; refused SOCKS5 requests are answered with
the code that says why; waiting times between logins double from 5 to 300 seconds. Each of
these is a `law_*` function next to the code that it speaks of.

## Limits

The handshake uses the identifier of stock WireGuard, which the linked boringtun release does
not let anyone change. A CorpLink endpoint, whose identifier is
`CorpLink v1 vpn@feilian-----------`, refuses this handshake; with such an endpoint the
tunnel needs a boringtun that is built with that identifier.

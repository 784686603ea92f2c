# proctor

`proctor` proxies HTTP `CONNECT` requests. It is given a port to listen on and a list of
servers, and tunnels traffic to port 443 of those servers and to no other.

```
USAGE:
    proctor [OPTIONS] --port <PORT> [HOSTNAME]...
```

At least one `HOSTNAME` must be given. With `--debug` the proxy shows what it reads and does.

## Layout

The library under `src/` is verified with Verus. It never touches a socket.

- `stream`: what reading a stream byte by byte yields.
- `grammar`: the form of a request, as a function of the items that were read.
- `parser`: reads a request item by item, exactly as far as it takes.
- `access`: which requests are allowed.
- `session`: what is done for a client, in which order, and what a failure is called.
- `relay`: one direction of a tunnel.
- `text`: texts, the bytes that stand for them, and decimal numbers.
- `laws`: what holds of every stream that a request is read from.
- `requests`: requests in the usual form, and how they are read.

`app/` holds the command line, the sockets and the threads, and `tests/` the tests.

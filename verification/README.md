# download_parallel

A downloader that fetches one file over HTTP or HTTPS in several ranged
requests at once, keeps every piece in a temporary folder, and joins the
pieces in order when all have arrived.

`src/` is the verified library (Verus): address parsing, the request texts,
the reading of answers, the cutting of a file into byte ranges, the naming
and ordering of pieces, and the rules behind the window. `app/` is the
program around it: the window (fltk), sockets and TLS (native-tls), threads
and files.

Proved properties include: the byte ranges cover the file exactly and in
order; piece names sort in piece order, so the joined file is in download
order (proved for up to 100 pieces; the fastest speed setting uses 60); a byte range can always be added to a request, and doing so adds
exactly one `Range` line after the `User-Agent` line.

# kindle_rust

Software for a jailbroken Kindle used as an e-ink display: a player that
streams packed 1-bit frames to the screen, and a "meme board" that polls a
server and shows the picture it serves.

- `src/` is the library, verified with Verus: rendering packed frames and
  grayscale images into the framebuffer, the e-ink refresh request, frame
  pacing, the status exchange with the server, the decision of when to
  replace the picture, and chunking of item streams.
- `app/` is the program around it: the framebuffer device (ioctl, mmap),
  running `eips` and `curl`, sleeping, suspending, logging.
- `tests/` exercises the library on concrete values.

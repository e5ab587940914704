# arxburn

Write an image to a USB stick, and prove the stick got it. Fetch the image too, if it is not here
yet.

What the tool decides is a library that Verus proves correct; what it touches (disks, the network,
the terminal) is a thin program around it.

* `src/` is the library. Text is modelled as sequences of characters, disks and downloads as plain
  values. Whatever takes several steps with the outside world in between (resolving the newest
  build, downloading and checking an image, burning a stick, verifying one, updating the program) is
  a function from where it stands and what just happened to what is said and asked for next, so that
  what must hold of every run can be stated and proved.
* `app/` is the program: `app/main.rs` is the command line, `app/gui.rs` the window.
* `tests/` runs the library.

## What is proved

Functions named `law_...` state what holds of the library as a whole. Among them:

* the disk that carries the running system is never written, under any flag (`burn`, `dev`);
* nothing is erased before the image was hashed, fits, matches the hash that was asked for, and the
  name of the device was typed, unless no question was wanted (`burn`);
* a burn is called good only when what was read back off the device, with the page cache dropped,
  has the hash of the image; the partition table is changed only after that (`burn`);
* a downloaded image is burned only if it has its published hash, as far as one is published
  (`acquire`);
* a program is replaced only once the downloads of all of them have their published hashes, so a bad
  one leaves everything as it was (`update`);
* a finished parallel download was answered for every byte of the file, however its attempts
  overlapped, in this run or in the one it went on from; no block is stranded, and none is fetched
  twice while another is waiting (`plan`, `fetch`);
* the hash is SHA-256 as FIPS 180-4 defines it (`sha256`).

## What is trusted

Four calls are believed to do what their documentation says: `String::push`,
`String::from_utf8_lossy`, `str::to_lowercase`, and `serde_json::from_str`.

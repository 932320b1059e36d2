# wn_steam_client

Two parts of a Steam client, with their behaviour stated as contracts and
proved by Verus.

`depot_cleanup` takes away the files that an old build of a depot left behind.
A pass works out what all installed builds hold, and removes what old builds
held and no installed build does. It asks for one thing at a time (a file list,
a manifest, the removal of a file) and goes on with the answer; whoever runs it
does the reading and removing.

- `paths`: how manifest paths are compared, and which are safe to remove
- `filelist`: a build's file list as a text, and how it is read back
- `builds`, `records`: names of a build's files, and what is written for a
  later pass
- `steps`: the states of a pass, and what follows each answer
- `pass`: the pass that runs
- `soundness`, `laws`: what holds whatever a pass is answered: only condemned
  files are removed, nothing behind a link is touched, and every answer brings
  the end nearer
- `disk`, `outcome`, `emptied`: a pass on a model of the disk. A pass does what
  `disk::clean` says. What an installed build holds stays. A file that only old
  builds hold goes, if its name is safe, no directory on the way to it is a link
  and it can be removed; the number returned is the number of files gone. A
  directory that the pass empties goes, unless an installed build holds it or
  it cannot be removed. The markers of the builds that the pass has done with go

`pb` holds the messages by which a client asks for friends' data and reads
their persona states, over the wire format in `proto_wire`.

`app` is the file system around the cleanup. It expects the rest of the client
(the depot config, the manifest decoder, the writer of files) behind a trait.

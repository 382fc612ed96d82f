# ftpdown

A command-line client that fetches files from FTP servers, driven by
configuration files in `~/.ftpdown/`:

```
host: 192.168.1.48:1337;
user: user;
password: apassword;
remoteFiles:
[{
  remoteDir: /var/wow/;
  localDir: ./;
  name: FilenameOnTheServer.mkv;
  nameToSaveAs: Localfsname.mkv;
},
{
  remoteDir: /var/www/;
  localDir: ./webBackup/;
  name: page(*).css;
}];
```

The port is optional (21 by default), and so is `nameToSaveAs:` (the file
keeps its name). `(*)` in a name selects every file of the remote directory
that is the name's other parts, in order, with any text in place of each
`(*)`; a `nameToSaveAs:` with as many `(*)` receives that text in place of
its own. `-dr` runs without downloading, and
`-af <config> <remoteDir> <localDir> <name> [nameToSaveAs]` adds an entry to a
configuration.

Layout: `src/` is the verified library (the configuration format, adding
entries and reading them back, `(*)` names, paths, the progress display,
the flags and what to do with each entry); `app/main.rs` is the program around it (files, the FTP session,
printing); `tests/` exercises the library.

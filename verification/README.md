# ksip

The logic of KSIP, a SIP softphone for Windows, as a library whose functions
carry contracts that Verus proves, and the Windows program around it.

- `src/` is the library. Each module states what its functions return over
  spec functions of its own: the call state and the history rows it makes
  (`phone_state`, `history`), the settings, their rules and their group
  policy values (`settings`, `storage`), the engine's configuration
  (`config`), the control channel's frames (`netstring`), the log and its
  file (`logs`, `log_text`), the window's actions and its look at the calls
  (`actions`, `window`), links (`protocol`), audio arguments and the echo
  measurement (`audio`), sound files (`wav`), the trust store (`trust`) and
  the messages the window turns into words (`message`). The laws that relate
  several functions are public proof functions named `law_…`.
- `app/` is the program: the window, the tray, the engine process, the
  registry, the credential vault, COM audio and Media Foundation. It holds
  the state and does the I/O, and asks the library for every decision.
- `tests/` runs the library on concrete values.

# flowstation

A verified library for a TETRA base station:

- `message`, `paging`: the DAPNET message lines of the RWTH core, and the texts made of them.
- `session`: the login, and what each line of the core is answered.
- `worker`: when to receive, which messages are new, and what they are forwarded as.
- `dashboard`, `lines`, `rewrite_laws`, `section_laws`: masking of secrets, and the `[dapnet]`
  section of the configuration file.
- `ss_bs`: the answer to supplementary services, none of which is supported.
- `rf_test`: the RF test section of the configuration.
- `text`, `number`, `config`: characters, digits and settings that the others share.
- `outside`: what is taken on trust from `std` and from other crates.

The functions named `law_...` state what holds across several calls.

`app/` holds the thread, the socket, the channels and the file around it. It leaves to its caller,
as traits, the shared settings, the sinks and the encoders of payloads.

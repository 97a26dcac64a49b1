# viva_padel

Padel court availabilities at the LeGarden club, verified with Verus.

The library (`src/`) holds the logic of the booking app and of its polling server:

- `legarden`: the answers of the booking server (plannings of courts, slots and price options);
- `availabilities`, `strmap`: availabilities by date, and the walk through every price option;
- `freed`: what got freed between two polls, and whether a slot starts too soon to tell;
- `alarm`: users' alarms and what each one targets;
- `notify`: the text of a notification, alarms grouped by user, the devices to reach;
- `calendar`: the calendar of the booking app, its filters, the next free courts;
- `services`: the days polled, the stand-in booking server, when to poll;
- `api`: errors, request and answer bodies, tokens and the `Authorization` header;
- `dates`, `text`: days, times and the chrono calls behind them; string comparisons.

`app/` is the server around it: HTTP routes, polling, JSON and pushes.
`tests/` exercise the library on concrete values.

# dep_resolution

Decides which packages a Python project needs: from its requirements, from the
lock file, and from what the package warehouse and a dependency service say.

- `src/` is the library. It is written in Verus; its contracts say what each
  decision is, and Verus proves them.
  - `version`, `constraint`, `req`: versions, constraints on them and
    requirements, with their order, their meaning and how they are read.
  - `warehouse`, `pydeps`: what the warehouse and the service say, and what
    they are asked.
  - `select`, `lock`, `choice`: the decisions on one list of requirements.
  - `graph`: the search, as a machine that is told what it wants to know.
  - `guess`, `follow`, `origin`: what the search comes to, by recursion, which
    requirements it follows, and where the packages it finds come from.
  - `resolve`: what is to be installed.
  - `installed`, `again`: what holds of it. It meets every requirement, with
    the newest known version where the lock file does not answer, and as a lock
    file it reproduces itself.
- `app/` asks the warehouse and the service over the network and hands their
  answers to the library.
- `tests/` runs the library on examples.
